//! The slot table: a bounded backing store of tagged slots with an intrusive
//! free list threaded through the vacant ones.

use vstd::prelude::*;

verus! {

/// One element of the backing storage.
///
/// A vacant slot carries the index of the next vacant slot, forming an
/// intrusive singly-linked free list; the current length of the backing
/// storage serves as the end-of-list sentinel.
pub enum Entry<T> {
    Vacant(usize),
    Occupied(T),
}

/// 1 for an occupied slot, 0 for a vacant one.
pub open spec fn occ_count<T>(e: Entry<T>) -> nat {
    if e is Occupied {
        1nat
    } else {
        0nat
    }
}

/// Number of occupied slots in a sequence of entries.
pub open spec fn num_occupied<T>(s: Seq<Entry<T>>) -> nat
    decreases s.len(),
{
    if s.len() == 0 {
        0nat
    } else {
        num_occupied(s.drop_last()) + occ_count(s.last())
    }
}

/// The free-list link a chain is obliged to store at position `k`: the next
/// chain element if there is one, the end sentinel `end` otherwise.
pub open spec fn chain_link(f: Seq<int>, end: int, k: int) -> int {
    if k + 1 < f.len() {
        f[k + 1]
    } else {
        end
    }
}

/// The occupied-slot count never exceeds the number of slots.
pub proof fn lemma_num_occupied_le<T>(s: Seq<Entry<T>>)
    ensures
        num_occupied(s) <= s.len(),
    decreases s.len(),
{
    if s.len() > 0 {
        lemma_num_occupied_le(s.drop_last());
    }
}

/// How the occupied-slot count changes when one slot is overwritten.
pub proof fn lemma_num_occupied_update<T>(s: Seq<Entry<T>>, k: int, e: Entry<T>)
    requires
        0 <= k < s.len(),
    ensures
        num_occupied(s.update(k, e)) == num_occupied(s) - occ_count(s[k]) + occ_count(e),
    decreases s.len(),
{
    let t = s.update(k, e);
    if k == s.len() - 1 {
        assert(t.drop_last() =~= s.drop_last());
    } else {
        assert(t.drop_last() =~= s.drop_last().update(k, e));
        lemma_num_occupied_update(s.drop_last(), k, e);
    }
}

/// Appending one slot adds its own count.
pub proof fn lemma_num_occupied_push<T>(s: Seq<Entry<T>>, e: Entry<T>)
    ensures
        num_occupied(s.push(e)) == num_occupied(s) + occ_count(e),
{
    assert(s.push(e).drop_last() =~= s);
}

/// A sequence whose slots are all occupied is fully counted.
pub proof fn lemma_num_occupied_full<T>(s: Seq<Entry<T>>)
    requires
        forall|i: int| 0 <= i < s.len() ==> (#[trigger] s[i]) is Occupied,
    ensures
        num_occupied(s) == s.len(),
    decreases s.len(),
{
    if s.len() > 0 {
        lemma_num_occupied_full(s.drop_last());
    }
}

/// A vacant slot keeps the occupied-slot count strictly below the length.
pub proof fn lemma_num_occupied_vacant<T>(s: Seq<Entry<T>>, k: int)
    requires
        0 <= k < s.len(),
        s[k] is Vacant,
    ensures
        num_occupied(s) < s.len(),
{
    let t = s.update(k, Entry::<T>::Occupied(arbitrary()));
    lemma_num_occupied_update(s, k, Entry::<T>::Occupied(arbitrary()));
    lemma_num_occupied_le(t);
}

/// What one successful insert does to the slots and the free-list head: the
/// chosen key is the old head; reusing a vacant slot advances the head to
/// that slot's stored link, while appending advances it past the new end.
pub open spec fn insert_step<T>(
    pre: Seq<Entry<T>>,
    pre_head: usize,
    val: T,
    key: usize,
    post: Seq<Entry<T>>,
    post_head: usize,
) -> bool {
    &&& key == pre_head
    &&& key <= pre.len()
    &&& if key < pre.len() {
        &&& pre[key as int] is Vacant
        &&& post == pre.update(key as int, Entry::Occupied(val))
        &&& post_head == pre[key as int]->Vacant_0
    } else {
        &&& post == pre.push(Entry::Occupied(val))
        &&& post_head as int == key + 1
    }
}

/// What one successful remove does: the slot turns vacant and stores the old
/// free-list head as its link, and the removed key becomes the new head, so
/// the most recently removed key is reused first.
pub open spec fn remove_step<T>(
    pre: Seq<Entry<T>>,
    pre_head: usize,
    key: usize,
    val: T,
    post: Seq<Entry<T>>,
    post_head: usize,
) -> bool {
    &&& key < pre.len()
    &&& pre[key as int] == Entry::Occupied(val)
    &&& post == pre.update(key as int, Entry::Vacant(pre_head))
    &&& post_head == key
}

/// A fixed-capacity slot table.
///
/// At most `N` slots ever exist. Each slot is either occupied or part of the
/// free list rooted at `next`; `len` counts the occupied slots.
pub struct Slab<T, const N: usize> {
    entries: Vec<Entry<T>>,
    len: usize,
    next: usize,
    free: Ghost<Seq<int>>,
}

impl<T, const N: usize> View for Slab<T, N> {
    type V = Seq<Entry<T>>;

    closed spec fn view(&self) -> Seq<Entry<T>> {
        self.entries@
    }
}

impl<T, const N: usize> Slab<T, N> {
    /// The index of the head of the free list, or the current storage length
    /// when no reclaimed slot is available and the next insert must append.
    pub closed spec fn free_head(&self) -> usize {
        self.next
    }

    /// Well-formedness: the storage respects the capacity, `len` counts the
    /// occupied slots, and the vacant slots are exactly the elements of one
    /// duplicate-free chain rooted at `next` and ending at the storage length.
    pub closed spec fn wf(&self) -> bool {
        let s = self.entries@;
        let f = self.free@;
        &&& s.len() <= N
        &&& self.len == num_occupied(s)
        &&& f.no_duplicates()
        &&& forall|k: int| 0 <= k < f.len() ==> 0 <= #[trigger] f[k] < s.len()
        &&& forall|k: int|
            0 <= k < f.len() ==> #[trigger] s[f[k]] == Entry::<T>::Vacant(
                chain_link(f, s.len() as int, k) as usize,
            )
        &&& self.next as int == if f.len() > 0 {
            f[0]
        } else {
            s.len() as int
        }
        &&& forall|i: int| 0 <= i < s.len() ==> ((#[trigger] s[i]) is Vacant <==> f.contains(i))
    }

    /// Construct an empty table.
    pub fn new() -> (r: Self)
        ensures
            r.wf(),
            r@ == Seq::<Entry<T>>::empty(),
            r.free_head() == 0,
    {
        Slab { entries: Vec::new(), len: 0, next: 0, free: Ghost(Seq::empty()) }
    }

    /// Insert a value at the slot that `next` designates: the head of the
    /// free list when one exists, the append position otherwise. This is the
    /// key that `insert` would choose; any other key is a contract violation.
    ///
    /// Fails exactly when the table is full: the append position equals the
    /// capacity. On failure the value is handed back and the table is
    /// untouched.
    pub fn insert_at(&mut self, key: usize, val: T) -> (r: Result<(), T>)
        requires
            old(self).wf(),
            key == old(self).free_head(),
        ensures
            final(self).wf(),
            r is Err <==> old(self).free_head() == N,
            r matches Err(v) ==> v == val && *final(self) == *old(self),
            r is Ok ==> insert_step(
                old(self)@,
                old(self).free_head(),
                val,
                key,
                final(self)@,
                final(self).free_head(),
            ),
            r is Ok ==> num_occupied(final(self)@) == num_occupied(old(self)@) + 1,
            r is Ok ==> forall|j: int|
                0 <= j < old(self)@.len() && j != key ==> final(self)@[j] == old(self)@[j],
    {
        let ghost s0 = self.entries@;
        let ghost f0 = self.free@;
        if key == self.entries.len() {
            proof {
                // the head equals the storage length, so the free list is empty
                if f0.len() > 0 {
                    assert(f0[0] < s0.len());
                    assert(false);
                }
            }
            if self.entries.len() == N {
                return Err(val);
            }
            self.entries.push(Entry::Occupied(val));
            self.next = key + 1;
            proof {
                lemma_num_occupied_le(s0);
                lemma_num_occupied_push(s0, Entry::<T>::Occupied(val));
            }
            self.len = self.len + 1;
            proof {
                let s1 = self.entries@;
                assert forall|i: int|
                    0 <= i < s1.len() implies ((#[trigger] s1[i]) is Vacant <==> f0.contains(
                    i,
                )) by {
                    if i < s0.len() {
                        assert(s1[i] == s0[i]);
                    } else {
                        assert(s1[i] == Entry::<T>::Occupied(val));
                        if f0.contains(i) {
                            let k = choose|k: int| 0 <= k < f0.len() && f0[k] == i;
                            assert(f0[k] < s0.len());
                        }
                    }
                }
                assert(self.wf());
            }
            Ok(())
        } else {
            proof {
                // the head is below the storage length, so the free list is
                // non-empty and its first element is the slot at `key`
                if f0.len() == 0 {
                    assert(false);
                }
                assert(s0[f0[0]] == Entry::<T>::Vacant(
                    chain_link(f0, s0.len() as int, 0) as usize,
                ));
            }
            let link: usize = match &self.entries[key] {
                Entry::Vacant(n) => *n,
                Entry::Occupied(_) => unreached(),
            };
            self.entries.set(key, Entry::Occupied(val));
            self.next = link;
            proof {
                lemma_num_occupied_update(s0, key as int, Entry::<T>::Occupied(val));
                lemma_num_occupied_le(s0.update(key as int, Entry::<T>::Occupied(val)));
            }
            self.len = self.len + 1;
            self.free = Ghost(f0.drop_first());
            proof {
                let s1 = self.entries@;
                let f1 = self.free@;
                assert forall|k: int| 0 <= k < f1.len() implies 0 <= #[trigger] f1[k]
                    < s1.len() by {
                    assert(f1[k] == f0[k + 1]);
                }
                assert forall|k: int|
                    0 <= k < f1.len() implies #[trigger] s1[f1[k]] == Entry::<T>::Vacant(
                    chain_link(f1, s1.len() as int, k) as usize,
                ) by {
                    assert(f1[k] == f0[k + 1]);
                    assert(f0[k + 1] != f0[0]);
                    assert(s0[f0[k + 1]] == Entry::<T>::Vacant(
                        chain_link(f0, s0.len() as int, k + 1) as usize,
                    ));
                    assert(chain_link(f0, s0.len() as int, k + 1) == chain_link(
                        f1,
                        s1.len() as int,
                        k,
                    ));
                }
                assert(f1.len() > 0 ==> f1[0] == f0[1]);
                assert(link as int == chain_link(f0, s0.len() as int, 0));
                assert forall|i: int|
                    0 <= i < s1.len() implies ((#[trigger] s1[i]) is Vacant <==> f1.contains(
                    i,
                )) by {
                    if i == key as int {
                        if f1.contains(i) {
                            let k = choose|k: int| 0 <= k < f1.len() && f1[k] == i;
                            assert(f1[k] == f0[k + 1]);
                            assert(f0[k + 1] == f0[0]);
                            assert(false);
                        }
                    } else {
                        assert(s1[i] == s0[i]);
                        if s0[i] is Vacant {
                            let k = choose|k: int| 0 <= k < f0.len() && f0[k] == i;
                            assert(k != 0);
                            assert(f1[k - 1] == f0[k]);
                            assert(f1.contains(i));
                        }
                        if f1.contains(i) {
                            let k = choose|k: int| 0 <= k < f1.len() && f1[k] == i;
                            assert(f1[k] == f0[k + 1]);
                            assert(f0.contains(i));
                        }
                    }
                }
                assert forall|i: int, j: int|
                    0 <= i < f1.len() && 0 <= j < f1.len() && i != j implies f1[i] != f1[j] by {
                    assert(f1[i] == f0[i + 1]);
                    assert(f1[j] == f0[j + 1]);
                }
                assert(self.wf());
            }
            Ok(())
        }
    }

    /// Insert a value, choosing the key for it: the head of the free list
    /// when one exists, the append position otherwise. On success the chosen
    /// key is returned; on failure (the table is full) the value is handed
    /// back and the table is untouched.
    pub fn insert(&mut self, val: T) -> (r: Result<usize, T>)
        requires
            old(self).wf(),
        ensures
            final(self).wf(),
            r is Err <==> old(self).free_head() == N,
            r matches Err(v) ==> v == val && *final(self) == *old(self),
            r matches Ok(key) ==> insert_step(
                old(self)@,
                old(self).free_head(),
                val,
                key,
                final(self)@,
                final(self).free_head(),
            ),
            r is Ok ==> num_occupied(final(self)@) == num_occupied(old(self)@) + 1,
            r matches Ok(key) ==> forall|j: int|
                0 <= j < old(self)@.len() && j != key ==> final(self)@[j] == old(self)@[j],
    {
        let key = self.next;
        match self.insert_at(key, val) {
            Ok(()) => Ok(key),
            Err(v) => Err(v),
        }
    }

    /// Remove the value at `key` and hand it back, or report absence when
    /// the key denotes no slot or a vacant one (a double remove or an
    /// invalid key), leaving the table unchanged in that case. On success
    /// the slot joins the free list as its new head. Preferred over `remove`
    /// when key validity cannot be guaranteed by the caller.
    pub fn remove_safe(&mut self, key: usize) -> (r: Option<T>)
        requires
            old(self).wf(),
        ensures
            final(self).wf(),
            r is Some <==> key < old(self)@.len() && old(self)@[key as int] is Occupied,
            r matches Some(val) ==> remove_step(
                old(self)@,
                old(self).free_head(),
                key,
                val,
                final(self)@,
                final(self).free_head(),
            ),
            r is Some ==> num_occupied(final(self)@) == num_occupied(old(self)@) - 1,
            r is None ==> *final(self) == *old(self),
            r is Some ==> forall|j: int|
                0 <= j < old(self)@.len() && j != key ==> final(self)@[j] == old(self)@[j],
    {
        if key >= self.entries.len() {
            return None;
        }
        let ghost s0 = self.entries@;
        let ghost f0 = self.free@;
        match &self.entries[key] {
            Entry::Vacant(_) => {
                return None;
            },
            Entry::Occupied(_) => {},
        }
        let mut slot = Entry::Vacant(self.next);
        self.entries.set_and_swap(key, &mut slot);
        let val = match slot {
            Entry::Occupied(v) => v,
            Entry::Vacant(_) => unreached(),
        };
        proof {
            lemma_num_occupied_update(s0, key as int, Entry::<T>::Vacant(old(self).next));
        }
        self.len = self.len - 1;
        self.next = key;
        self.free = Ghost(f0.insert(0, key as int));
        proof {
            let s1 = self.entries@;
            let f1 = self.free@;
            // the removed slot was occupied, so it was not on the free list
            assert(!f0.contains(key as int));
            assert(f1[0] == key as int);
            assert forall|k: int| 0 <= k < f1.len() implies 0 <= #[trigger] f1[k] < s1.len() by {
                if k > 0 {
                    assert(f1[k] == f0[k - 1]);
                }
            }
            assert forall|k: int|
                0 <= k < f1.len() implies #[trigger] s1[f1[k]] == Entry::<T>::Vacant(
                chain_link(f1, s1.len() as int, k) as usize,
            ) by {
                if k == 0 {
                    assert(s1[key as int] == Entry::<T>::Vacant(old(self).next));
                    assert(chain_link(f1, s1.len() as int, 0) == if f0.len() > 0 {
                        f0[0]
                    } else {
                        s0.len() as int
                    });
                } else {
                    assert(f1[k] == f0[k - 1]);
                    assert(f0[k - 1] != key as int);
                    assert(s1[f0[k - 1]] == s0[f0[k - 1]]);
                    assert(s0[f0[k - 1]] == Entry::<T>::Vacant(
                        chain_link(f0, s0.len() as int, k - 1) as usize,
                    ));
                    assert(chain_link(f0, s0.len() as int, k - 1) == chain_link(
                        f1,
                        s1.len() as int,
                        k,
                    ));
                }
            }
            assert forall|i: int|
                0 <= i < s1.len() implies ((#[trigger] s1[i]) is Vacant <==> f1.contains(i)) by {
                if i == key as int {
                    assert(s1[i] is Vacant);
                    assert(f1[0] == i);
                } else {
                    assert(s1[i] == s0[i]);
                    if s0[i] is Vacant {
                        let k = choose|k: int| 0 <= k < f0.len() && f0[k] == i;
                        assert(f1[k + 1] == f0[k]);
                        assert(f1.contains(i));
                    }
                    if f1.contains(i) {
                        let k = choose|k: int| 0 <= k < f1.len() && f1[k] == i;
                        assert(k != 0);
                        assert(f1[k] == f0[k - 1]);
                        assert(f0.contains(i));
                    }
                }
            }
            assert forall|i: int, j: int|
                0 <= i < f1.len() && 0 <= j < f1.len() && i != j implies f1[i] != f1[j] by {
                if i > 0 && j > 0 {
                    assert(f1[i] == f0[i - 1]);
                    assert(f1[j] == f0[j - 1]);
                } else if i == 0 {
                    assert(f1[j] == f0[j - 1]);
                    assert(f0.contains(f0[j - 1]));
                } else {
                    assert(f1[i] == f0[i - 1]);
                    assert(f0.contains(f0[i - 1]));
                }
            }
            assert(self.wf());
        }
        Some(val)
    }

    /// Remove the value at `key` and hand it back. The key must denote an
    /// occupied slot; the slot joins the free list as its new head.
    pub fn remove(&mut self, key: usize) -> (val: T)
        requires
            old(self).wf(),
            key < old(self)@.len(),
            old(self)@[key as int] is Occupied,
        ensures
            final(self).wf(),
            remove_step(
                old(self)@,
                old(self).free_head(),
                key,
                val,
                final(self)@,
                final(self).free_head(),
            ),
            num_occupied(final(self)@) == num_occupied(old(self)@) - 1,
            forall|j: int|
                0 <= j < old(self)@.len() && j != key ==> final(self)@[j] == old(self)@[j],
    {
        match self.remove_safe(key) {
            Some(val) => val,
            None => unreached(),
        }
    }

    /// The number of occupied slots.
    pub fn len(&self) -> (n: usize)
        requires
            self.wf(),
        ensures
            n == num_occupied(self@),
    {
        self.len
    }

    /// The number of slots the backing storage currently holds, occupied or
    /// vacant; keys at or past it denote no slot yet.
    pub fn slots(&self) -> (n: usize)
        ensures
            n == self@.len(),
    {
        self.entries.len()
    }

    /// Bounds that well-formedness guarantees: the storage never exceeds the
    /// capacity, the occupied count never exceeds the storage, the free-list
    /// head never points past the storage, and when it points into it, that
    /// slot is vacant.
    pub proof fn lemma_wf_bounds(&self)
        requires
            self.wf(),
        ensures
            self@.len() <= N,
            num_occupied(self@) <= self@.len(),
            self.free_head() <= self@.len(),
            self.free_head() < self@.len() ==> self@[self.free_head() as int] is Vacant,
    {
        lemma_num_occupied_le(self.entries@);
        let f = self.free@;
        if f.len() > 0 {
            assert(self.entries@[f[0]] == Entry::<T>::Vacant(
                chain_link(f, self.entries@.len() as int, 0) as usize,
            ));
        }
    }

    /// Begin a fresh iteration pass over the occupied slots, in ascending
    /// key order. The cursor holds no borrow of the table: each call to
    /// `IterMut::next` takes the table anew and yields the next occupied key
    /// together with a mutable reference to its value.
    pub fn iter_mut(&mut self) -> (it: IterMut)
        ensures
            it.pos() == 0,
            *final(self) == *old(self),
    {
        IterMut { curr: 0 }
    }

    /// One full pass of the cursor, as one statement: the keys of the
    /// occupied slots, each exactly once, in strictly ascending order, as
    /// many as the occupied count. Proved from what `IterMut::next` promises
    /// call by call; the table's slots and free list are left as they were.
    pub fn occupied_keys(&mut self) -> (ks: Vec<usize>)
        requires
            old(self).wf(),
        ensures
            final(self).wf(),
            final(self)@ == old(self)@,
            final(self).free_head() == old(self).free_head(),
            forall|a: int, b: int| 0 <= a < b < ks@.len() ==> ks@[a] < ks@[b],
            forall|i: int|
                0 <= i < ks@.len() ==> ks@[i] < old(self)@.len() && old(self)@[#[trigger] ks@[
                    i
                ] as int] is Occupied,
            forall|k: int|
                0 <= k < old(self)@.len() && (#[trigger] old(self)@[k]) is Occupied
                    ==> ks@.contains(k as usize),
            ks@.len() == num_occupied(old(self)@),
    {
        let mut it = self.iter_mut();
        let mut ks: Vec<usize> = Vec::new();
        loop
            invariant_except_break
                old(self).wf(),
                self.wf(),
                self@ == old(self)@,
                self.free_head() == old(self).free_head(),
                0 <= it.pos() <= old(self)@.len(),
                forall|i: int|
                    0 <= i < ks@.len() ==> ks@[i] < it.pos() && old(self)@[#[trigger] ks@[
                        i
                    ] as int] is Occupied,
                forall|a: int, b: int| 0 <= a < b < ks@.len() ==> ks@[a] < ks@[b],
                forall|k: int|
                    0 <= k < it.pos() && (#[trigger] old(self)@[k]) is Occupied ==> ks@.contains(
                        k as usize,
                    ),
                ks@.len() == num_occupied(old(self)@.subrange(0, it.pos())),
            ensures
                self.wf(),
                self@ == old(self)@,
                self.free_head() == old(self).free_head(),
                forall|a: int, b: int| 0 <= a < b < ks@.len() ==> ks@[a] < ks@[b],
                forall|i: int|
                    0 <= i < ks@.len() ==> ks@[i] < old(self)@.len() && old(self)@[#[trigger] ks@[
                        i
                    ] as int] is Occupied,
                forall|k: int|
                    0 <= k < old(self)@.len() && (#[trigger] old(self)@[k]) is Occupied
                        ==> ks@.contains(k as usize),
                ks@.len() == num_occupied(old(self)@),
            decreases old(self)@.len() - it.pos(),
        {
            let ghost pos0 = it.pos();
            match it.next(&mut *self) {
                Some((k, _)) => {
                    proof {
                        // the yielded slot is occupied and its payload untouched
                        assert(self@ =~= old(self)@);
                        lemma_occ_prefix_constant(old(self)@, pos0, k as int);
                        lemma_occ_prefix_step(old(self)@, k as int);
                    }
                    let ghost ks0 = ks@;
                    ks.push(k);
                    proof {
                        assert(ks@[ks@.len() - 1] == k);
                        assert forall|k2: int|
                            0 <= k2 < it.pos() && (#[trigger] old(self)@[k2])
                                is Occupied implies ks@.contains(k2 as usize) by {
                            if k2 < pos0 {
                                let i = choose|i: int|
                                    0 <= i < ks0.len() && ks0[i] == k2 as usize;
                                assert(ks@[i] == k2 as usize);
                            } else {
                                // between the old cursor and the yielded key
                                // every slot is vacant, so only the key is left
                                assert(k2 == k as int);
                                assert(ks@[ks@.len() - 1] == k2 as usize);
                            }
                        }
                    }
                },
                None => {
                    proof {
                        lemma_occ_prefix_constant(old(self)@, pos0, old(self)@.len() as int);
                        assert(old(self)@.subrange(0, old(self)@.len() as int) =~= old(self)@);
                    }
                    break;
                },
            }
        }
        ks
    }

    /// A well-formed table must append but cannot (its free-list head equals
    /// the capacity) exactly when it already holds `N` values.
    pub proof fn lemma_at_capacity(&self)
        requires
            self.wf(),
        ensures
            self.free_head() == N <==> num_occupied(self@) == N,
    {
        let s = self.entries@;
        let f = self.free@;
        lemma_num_occupied_le(s);
        if self.free_head() == N {
            if f.len() > 0 {
                assert(f[0] < s.len());
                assert(false);
            }
            assert forall|i: int| 0 <= i < s.len() implies (#[trigger] s[i]) is Occupied by {
                if s[i] is Vacant {
                    assert(f.contains(i));
                }
            }
            lemma_num_occupied_full(s);
        } else {
            if num_occupied(s) == N {
                assert(s.len() == N);
                if f.len() > 0 {
                    assert(s[f[0]] is Vacant);
                    lemma_num_occupied_vacant(s, f[0]);
                    assert(false);
                }
            }
        }
    }
}

/// The occupied-slot count of a prefix grows by the next slot's own count.
proof fn lemma_occ_prefix_step<T>(s: Seq<Entry<T>>, i: int)
    requires
        0 <= i < s.len(),
    ensures
        num_occupied(s.subrange(0, i + 1)) == num_occupied(s.subrange(0, i)) + occ_count(s[i]),
{
    assert(s.subrange(0, i + 1) =~= s.subrange(0, i).push(s[i]));
    lemma_num_occupied_push(s.subrange(0, i), s[i]);
}

/// A run of vacant slots adds nothing to the prefix count.
proof fn lemma_occ_prefix_constant<T>(s: Seq<Entry<T>>, a: int, b: int)
    requires
        0 <= a <= b <= s.len(),
        forall|j: int| a <= j < b ==> !((#[trigger] s[j]) is Occupied),
    ensures
        num_occupied(s.subrange(0, b)) == num_occupied(s.subrange(0, a)),
    decreases b - a,
{
    if a < b {
        lemma_occ_prefix_constant(s, a, b - 1);
        lemma_occ_prefix_step(s, b - 1);
    }
}

/// Replacing the payload of an occupied slot disturbs neither the free-list
/// chain nor the occupancy pattern nor the occupied-slot count.
proof fn lemma_occupied_payload_replace<T>(s: Seq<Entry<T>>, f: Seq<int>, k: int, x: T)
    requires
        0 <= k < s.len(),
        s[k] is Occupied,
        forall|j: int| 0 <= j < f.len() ==> 0 <= #[trigger] f[j] < s.len(),
        forall|j: int|
            0 <= j < f.len() ==> #[trigger] s[f[j]] == Entry::<T>::Vacant(
                chain_link(f, s.len() as int, j) as usize,
            ),
        forall|i: int| 0 <= i < s.len() ==> ((#[trigger] s[i]) is Vacant <==> f.contains(i)),
    ensures
        forall|j: int|
            0 <= j < f.len() ==> #[trigger] s.update(k, Entry::Occupied(x))[f[j]]
                == Entry::<T>::Vacant(chain_link(f, s.len() as int, j) as usize),
        forall|i: int|
            0 <= i < s.len() ==> ((#[trigger] s.update(k, Entry::Occupied(x))[i]) is Vacant
                <==> f.contains(i)),
        num_occupied(s.update(k, Entry::Occupied(x))) == num_occupied(s),
{
    let s1 = s.update(k, Entry::Occupied(x));
    lemma_num_occupied_update(s, k, Entry::Occupied(x));
    assert forall|j: int| 0 <= j < f.len() implies f[j] != k by {
        assert(s[f[j]] is Vacant);
    }
    assert forall|i: int|
        0 <= i < s.len() implies ((#[trigger] s1[i]) is Vacant <==> f.contains(i)) by {
        if i != k {
            assert(s1[i] == s[i]);
        }
    }
}

/// A single-pass cursor over the occupied slots of a table, in ascending key
/// order. It records only the next index to look at, so the table itself is
/// handed to each call of `next`; the pass is not restartable.
pub struct IterMut {
    curr: usize,
}

impl IterMut {
    /// The next index the cursor will look at.
    pub closed spec fn pos(&self) -> int {
        self.curr as int
    }

    /// Yield the key of the first occupied slot at or after the cursor,
    /// together with a mutable reference to its value, and advance the
    /// cursor past it; or report that no occupied slot is left. The value
    /// may be mutated in place through the reference; the occupancy pattern,
    /// the free list and the occupied-slot count stay as they are.
    pub fn next<'a, T, const N: usize>(&mut self, slab: &'a mut Slab<T, N>) -> (r: Option<
        (usize, &'a mut T),
    >)
        requires
            old(slab).wf(),
        ensures
            final(slab).wf(),
            final(slab).free_head() == old(slab).free_head(),
            num_occupied(final(slab)@) == num_occupied(old(slab)@),
            match r {
                Some(p) => {
                    &&& old(self).pos() <= p.0 < old(slab)@.len()
                    &&& old(slab)@[p.0 as int] == Entry::<T>::Occupied(*p.1)
                    &&& forall|j: int|
                        old(self).pos() <= j < p.0 ==> !((#[trigger] old(slab)@[j]) is Occupied)
                    &&& final(self).pos() == p.0 + 1
                    &&& final(slab)@ == old(slab)@.update(
                        p.0 as int,
                        Entry::<T>::Occupied(*final(p.1)),
                    )
                },
                None => {
                    &&& forall|j: int|
                        old(self).pos() <= j < old(slab)@.len() ==> !((#[trigger] old(
                            slab,
                        )@[j]) is Occupied)
                    &&& *final(slab) == *old(slab)
                    &&& final(self).pos() >= old(slab)@.len()
                },
            },
    {
        let n = slab.entries.len();
        while self.curr < n
            invariant
                old(slab).wf(),
                *slab == *old(slab),
                n == slab@.len(),
                old(self).pos() <= self.curr as int,
                forall|j: int|
                    old(self).pos() <= j < self.curr as int && j < n ==> !((#[trigger] slab@[j])
                        is Occupied),
            decreases n - self.curr,
        {
            let k = self.curr;
            let occupied = match &slab.entries[k] {
                Entry::Occupied(_) => true,
                Entry::Vacant(_) => false,
            };
            if occupied {
                self.curr = k + 1;
                let entry = &mut slab.entries[k];
                match entry {
                    Entry::Occupied(v) => {
                        proof {
                            lemma_occupied_payload_replace(
                                old(slab).entries@,
                                old(slab).free@,
                                k as int,
                                *final(v),
                            );
                        }
                        return Some((k, v));
                    },
                    Entry::Vacant(_) => {
                        return unreached();
                    },
                }
            }
            self.curr = k + 1;
        }
        None
    }
}

impl<T, const N: usize> Default for Slab<T, N> {
    /// Construct an empty table.
    fn default() -> (r: Self)
        ensures
            r.wf(),
            r@ == Seq::<Entry<T>>::empty(),
            r.free_head() == 0,
    {
        Slab::new()
    }
}

} // verus!
