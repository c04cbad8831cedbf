//! An ordered list stored in a tiered key-value store: positions `0..len`
//! are the keys, and every reordering operation is a key swap, never a
//! byte move.

use crate::codec::StoreValue;
use crate::errors::StoreError;
use crate::file_hash::map_swap;
use crate::file_hash::FileHash;
use crate::file_hash::MAX_MEM_ENTRIES;
use vstd::prelude::*;

verus! {

/// Keeps the entries of `s` whose mask bit is set, in order.
pub open spec fn mask_filter<T>(s: Seq<T>, mask: Seq<bool>) -> Seq<T>
    decreases s.len(),
{
    if s.len() == 0 {
        Seq::empty()
    } else if mask.len() == s.len() && mask.last() {
        mask_filter(s.drop_last(), mask.drop_last()).push(s.last())
    } else {
        mask_filter(s.drop_last(), mask.drop_last())
    }
}

/// `leq` is reflexive and transitive: the order a comparator is held
/// against.
pub open spec fn preorder<T>(leq: spec_fn(T, T) -> bool) -> bool {
    &&& forall|x: T| #[trigger] leq(x, x)
    &&& forall|x: T, y: T, z: T| #[trigger] leq(x, y) && #[trigger] leq(y, z) ==> leq(x, z)
}

/// Every recorded verdict of the comparator decides `leq` on the views:
/// `Less` places the first argument below the second, and any other
/// verdict places the second at or below the first.
pub open spec fn comparator_agrees<
    ValueType: StoreValue,
    F: Fn(&ValueType, &ValueType) -> core::cmp::Ordering,
>(f: F, leq: spec_fn(ValueType::V, ValueType::V) -> bool) -> bool {
    forall|a: ValueType, b: ValueType, o: core::cmp::Ordering|
        #[trigger] call_ensures(f, (&a, &b), o) ==> if o == core::cmp::Ordering::Less {
            leq(a.deep_view(), b.deep_view())
        } else {
            leq(b.deep_view(), a.deep_view())
        }
}

/// Non-decreasing with respect to `leq`.
pub open spec fn sorted_by_leq<T>(s: Seq<T>, leq: spec_fn(T, T) -> bool) -> bool {
    forall|i: int, j: int| 0 <= i < j < s.len() ==> #[trigger] leq(s[i], s[j])
}

/// A set of positions that all lie below `n` has at most `n` elements; if
/// it holds every position below `n`, exactly `n`.
proof fn lemma_position_set_card(d: Set<usize>, n: usize)
    requires
        d.finite(),
        forall|k: usize| #[trigger] d.contains(k) ==> k < n,
    ensures
        d.len() <= n,
        (forall|k: usize| k < n ==> #[trigger] d.contains(k)) ==> d.len() == n,
    decreases n,
{
    if n == 0 {
        assert(d =~= Set::<usize>::empty());
    } else {
        let m = (n - 1) as usize;
        let d2 = d.remove(m);
        assert(forall|k: usize| #[trigger] d2.contains(k) ==> k < m);
        lemma_position_set_card(d2, m);
        if d.contains(m) {
            assert(d =~= d2.insert(m));
            vstd::set::axiom_set_insert_len(d2, m);
        } else {
            assert(d =~= d2);
        }
        if forall|k: usize| k < n ==> #[trigger] d.contains(k) {
            assert(forall|k: usize| k < m ==> #[trigger] d2.contains(k));
            assert(d.contains(m));
        }
    }
}

/// Exchanging two positions of a sequence keeps its multiset of elements.
proof fn lemma_swap_to_multiset<T>(s: Seq<T>, i: int, j: int)
    requires
        0 <= i < s.len(),
        0 <= j < s.len(),
    ensures
        s.update(i, s[j]).update(j, s[i]).to_multiset() == s.to_multiset(),
{
    broadcast use vstd::seq_lib::group_to_multiset_ensures;

    let t = s.update(i, s[j]).update(j, s[i]);
    if i == j {
        assert(t =~= s);
    } else {
        lemma_update_to_multiset(s, i, s[j]);
        let t1 = s.update(i, s[j]);
        assert(t1[j] == s[j]);
        lemma_update_to_multiset(t1, j, s[i]);
        assert(t.to_multiset() =~= s.to_multiset());
    }
}

/// Overwriting one position replaces exactly that element in the multiset.
proof fn lemma_update_to_multiset<T>(s: Seq<T>, i: int, x: T)
    requires
        0 <= i < s.len(),
    ensures
        s.update(i, x).to_multiset() == s.to_multiset().remove(s[i]).insert(x),
{
    broadcast use vstd::seq_lib::group_to_multiset_ensures;

    let t = s.update(i, x);
    assert(t.remove(i) =~= s.remove(i));
    assert(t.remove(i).to_multiset() =~= t.to_multiset().remove(t[i]));
    assert(s.remove(i).to_multiset() =~= s.to_multiset().remove(s[i]));
    assert(t.contains(x)) by {
        assert(t[i] == x);
    }
    assert(t.to_multiset().count(x) > 0);
    assert(t.to_multiset() =~= t.to_multiset().remove(x).insert(x));
    assert(t.to_multiset() =~= s.to_multiset().remove(s[i]).insert(x));
}

/// `FileVec` is a push/pop/insert-removable ordered list keyed by dense
/// integer positions, built on a tiered key-value store.
pub struct FileVec<ValueType: StoreValue> {
    file_hash: FileHash<usize, ValueType>,
    len: usize,
}

impl<ValueType: StoreValue> View for FileVec<ValueType> {
    type V = Seq<ValueType::V>;

    closed spec fn view(&self) -> Seq<ValueType::V> {
        let fh = self.file_hash@;
        Seq::new(
            self.len as nat,
            |i: int|
                if fh.dom().contains(i as usize) {
                    fh[i as usize]
                } else {
                    arbitrary()
                },
        )
    }
}

impl<ValueType: StoreValue> FileVec<ValueType> {
    pub closed spec fn wf(self) -> bool {
        &&& self.file_hash.wf()
        &&& forall|k: usize| #[trigger] self.file_hash@.dom().contains(k) ==> k < self.len
    }

    /// Every position below the length is really present.  Only a failed
    /// disk write inside `set` can poke a hole into the sequence.
    pub closed spec fn complete(self) -> bool {
        forall|k: usize| k < self.len ==> #[trigger] self.file_hash@.dom().contains(k)
    }

    /// Whether the underlying store has switched to its disk-backed mode.
    pub closed spec fn on_disk(self) -> bool {
        self.file_hash.on_disk()
    }

    /// The in-memory entry-count threshold of the underlying store.
    pub closed spec fn threshold(self) -> usize {
        self.file_hash.threshold()
    }

    pub fn new() -> (r: Self)
        ensures
            r.wf(),
            r@ == Seq::<ValueType::V>::empty(),
            r.complete(),
            !r.on_disk(),
            r.threshold() == MAX_MEM_ENTRIES,
    {
        let r = FileVec { file_hash: FileHash::new(), len: 0 };
        proof {
            assert(r@ =~= Seq::<ValueType::V>::empty());
        }
        r
    }

    pub fn len(&self) -> (r: usize)
        ensures
            r == self@.len(),
    {
        self.len
    }

    pub fn is_empty(&self) -> (r: bool)
        ensures
            r == (self@.len() == 0),
    {
        self.len == 0
    }

    /// Appends a value at the end of the sequence.
    pub fn push(&mut self, row: ValueType) -> (r: Result<(), StoreError>)
        requires
            old(self).wf(),
            old(self)@.len() < usize::MAX,
        ensures
            final (self).wf(),
            old(self).on_disk() ==> final (self).on_disk(),
            final (self).threshold() == old(self).threshold(),
            r is Ok ==> final (self)@ == old(self)@.push(row.deep_view()) && (old(
                self,
            ).complete() ==> final (self).complete()),
            r is Ok && old(self).complete() ==> (final (self).on_disk() <==> (old(
                self,
            ).on_disk() || old(self)@.len() + 1 > old(self).threshold())),
            r is Err ==> final (self)@ == old(self)@,
            !old(self).on_disk() && old(self).complete() && old(self)@.len() + 1 <= old(
                self,
            ).threshold() ==> r is Ok,
    {
        let ghost pre = *self;
        proof {
            self.file_hash.lemma_wf_dom_finite();
            lemma_position_set_card(self.file_hash@.dom(), self.len);
            assert(!self.file_hash@.dom().contains(self.len));
            assert(self.file_hash@.insert(self.len, row.deep_view()).dom()
                =~= self.file_hash@.dom().insert(self.len));
            vstd::set::axiom_set_insert_len(self.file_hash@.dom(), self.len);
        }
        match self.file_hash.insert(self.len, row) {
            Ok(()) => {
                self.len = self.len + 1;
                proof {
                    assert(self@ =~= pre@.push(self.file_hash@[pre.len]));
                }
                Ok(())
            },
            Err(e) => {
                proof {
                    assert(self.file_hash@ == pre.file_hash@ || self.file_hash@
                        == pre.file_hash@.remove(pre.len));
                    assert(!pre.file_hash@.dom().contains(pre.len));
                    assert(pre.file_hash@.remove(pre.len) =~= pre.file_hash@);
                    assert(self@ =~= pre@);
                }
                Err(e)
            },
        }
    }

    /// Reads the value at a position.
    pub fn get(&mut self, pos: usize) -> (r: Option<ValueType>)
        requires
            old(self).wf(),
        ensures
            final (self).wf(),
            final (self)@ == old(self)@,
            final (self).complete() == old(self).complete(),
            final (self).on_disk() == old(self).on_disk(),
            final (self).threshold() == old(self).threshold(),
            match r {
                Some(v) => pos < old(self)@.len() && v.deep_view() == old(self)@[pos as int],
                None => pos >= old(self)@.len() || old(self).on_disk() || !old(self).complete(),
            },
    {
        self.file_hash.get(&pos)
    }

    /// Overwrites the value at a position; `pos` must lie below the
    /// current length.
    pub fn set(&mut self, pos: usize, row: ValueType) -> (r: Result<(), StoreError>)
        requires
            old(self).wf(),
        ensures
            final (self).wf(),
            final (self)@.len() == old(self)@.len(),
            final (self).threshold() == old(self).threshold(),
            old(self).on_disk() ==> final (self).on_disk(),
            r is Ok && old(self).complete() ==> (final (self).on_disk() <==> (old(
                self,
            ).on_disk() || old(self)@.len() > old(self).threshold())),
            r == Err::<(), StoreError>(StoreError::OutOfBounds) <==> pos >= old(self)@.len(),
            r is Ok ==> final (self)@ == old(self)@.update(pos as int, row.deep_view()) && (old(
                self,
            ).complete() ==> final (self).complete()),
            r is Err ==> forall|j: int|
                0 <= j < old(self)@.len() && j != pos ==> final (self)@[j] == old(self)@[j],
            !old(self).on_disk() && old(self).complete() && pos < old(self)@.len() && old(
                self,
            )@.len() <= old(self).threshold() ==> r is Ok,
    {
        if pos >= self.len {
            return Err(StoreError::OutOfBounds);
        }
        let ghost pre = *self;
        proof {
            self.file_hash.lemma_wf_dom_finite();
            lemma_position_set_card(self.file_hash@.dom(), self.len);
            if self.complete() {
                assert(self.file_hash@.dom().contains(pos));
                assert(self.file_hash@.insert(pos, row.deep_view()).dom()
                    =~= self.file_hash@.dom());
            }
        }
        match self.file_hash.insert(pos, row) {
            Ok(()) => {
                proof {
                    assert(self@ =~= pre@.update(pos as int, self.file_hash@[pos]));
                    if pre.complete() {
                        assert forall|k: usize| k < self.len implies
                            #[trigger] self.file_hash@.dom().contains(k) by {
                            if k != pos {
                                assert(pre.file_hash@.dom().contains(k));
                            }
                        }
                    }
                }
                Ok(())
            },
            Err(_) => {
                proof {
                    assert forall|j: int| 0 <= j < pre@.len() && j != pos implies self@[j]
                        == pre@[j] by {
                        assert(self.file_hash@ == pre.file_hash@ || self.file_hash@
                            == pre.file_hash@.remove(pos));
                    }
                }
                Err(StoreError::Io)
            },
        }
    }

    /// Exchanges the values at two positions by a key swap.
    pub fn swap(&mut self, idx1: usize, idx2: usize) -> (r: Result<(), StoreError>)
        requires
            old(self).wf(),
        ensures
            final (self).wf(),
            final (self)@.len() == old(self)@.len(),
            final (self).on_disk() == old(self).on_disk(),
            final (self).threshold() == old(self).threshold(),
            r is Ok <==> (idx1 < old(self)@.len() && idx2 < old(self)@.len()),
            r is Err ==> final (self)@ == old(self)@ && final (self).complete() == old(
                self,
            ).complete(),
            r is Ok ==> final (self)@ == old(self)@.update(idx1 as int, old(self)@[idx2 as int]).update(
                idx2 as int,
                old(self)@[idx1 as int],
            ) && final (self).complete() == old(self).complete(),
    {
        if idx1 >= self.len || idx2 >= self.len {
            return Err(StoreError::OutOfBounds);
        }
        let ghost pre = *self;
        self.file_hash.swap(&idx1, &idx2);
        proof {
            let m0 = pre.file_hash@;
            let m1 = self.file_hash@;
            assert(m1 == map_swap(m0, idx1, idx2));
            assert forall|k: usize| #[trigger] m1.dom().contains(k) implies k < self.len by {
                if k != idx1 && k != idx2 {
                    assert(m0.dom().contains(k));
                }
            }
            assert(self@ =~= pre@.update(idx1 as int, pre@[idx2 as int]).update(
                idx2 as int,
                pre@[idx1 as int],
            ));
            assert(self.complete() == pre.complete()) by {
                if pre.complete() {
                    assert forall|k: usize| k < self.len implies #[trigger] m1.dom().contains(k)
                        by {
                        assert(m0.dom().contains(k));
                        if k != idx1 && k != idx2 {
                        }
                    }
                }
                if self.complete() {
                    assert(m1.dom().contains(idx1) && m1.dom().contains(idx2));
                    assert(m0.dom().contains(idx1) && m0.dom().contains(idx2));
                    assert forall|k: usize| k < pre.len implies #[trigger] m0.dom().contains(k)
                        by {
                        assert(m1.dom().contains(k));
                        if k != idx1 && k != idx2 {
                        }
                    }
                }
            }
        }
        Ok(())
    }

    /// Removes and returns the last element.
    pub fn pop(&mut self) -> (r: Option<ValueType>)
        requires
            old(self).wf(),
        ensures
            final (self).wf(),
            final (self).on_disk() == old(self).on_disk(),
            final (self).threshold() == old(self).threshold(),
            match r {
                Some(v) => old(self)@.len() > 0 && v.deep_view() == old(self)@.last() && final (
                self)@ == old(self)@.drop_last() && (old(self).complete() ==> final (
                self).complete()),
                None => final (self)@ == old(self)@ || (old(self)@.len() > 0 && final (self)@
                    == old(self)@.drop_last()),
            },
            old(self)@.len() == 0 ==> r is None && final (self)@ == old(self)@,
            old(self).complete() ==> final (self).complete(),
            old(self)@.len() > 0 && old(self).complete() && !old(self).on_disk() ==> r is Some,
    {
        if self.len == 0 {
            return None;
        }
        let last = self.len - 1;
        let ghost pre = *self;
        let v = self.file_hash.remove(&last);
        match v {
            Some(x) => {
                self.len = last;
                proof {
                    assert forall|k: usize| #[trigger] self.file_hash@.dom().contains(k) implies k
                        < self.len by {
                        assert(pre.file_hash@.dom().contains(k));
                        assert(k != last);
                    }
                    assert(self@ =~= pre@.drop_last());
                    if pre.complete() {
                        assert forall|k: usize| k < self.len implies
                            #[trigger] self.file_hash@.dom().contains(k) by {
                            assert(pre.file_hash@.dom().contains(k));
                        }
                    }
                }
                Some(x)
            },
            None => {
                if self.file_hash.contains(&last) {
                    // the record exists but could not be read back: leave
                    // the sequence untouched
                    None
                } else {
                    // the slot was a hole; consume it
                    proof {
                        assert(!pre.complete()) by {
                            assert(!pre.file_hash@.dom().contains(last));
                        }
                    }
                    self.len = last;
                    proof {
                        assert forall|k: usize| #[trigger] self.file_hash@.dom().contains(k)
                            implies k < self.len by {
                            assert(pre.file_hash@.dom().contains(k));
                            assert(k != last);
                        }
                        assert(self@ =~= pre@.drop_last());
                    }
                    None
                }
            },
        }
    }

    /// Removes the element at `idx` and shifts everything after it one
    /// position down, by key swaps alone.
    pub fn remove(&mut self, idx: usize) -> (r: Option<ValueType>)
        requires
            old(self).wf(),
        ensures
            final (self).wf(),
            final (self).on_disk() == old(self).on_disk(),
            final (self).threshold() == old(self).threshold(),
            idx >= old(self)@.len() ==> r is None && final (self)@ == old(self)@,
            match r {
                Some(v) => idx < old(self)@.len() && v.deep_view() == old(self)@[idx as int]
                    && final (self)@ == old(self)@.remove(idx as int) && (old(self).complete()
                    ==> final (self).complete()),
                None => idx >= old(self)@.len() || old(self).on_disk() || !old(self).complete(),
            },
            old(self).complete() && !old(self).on_disk() && idx < old(self)@.len() ==> r is Some,
    {
        if idx >= self.len {
            return None;
        }
        let ghost n = self@.len();
        let mut p: usize = idx + 1;
        while p < self.len
            invariant
                self.wf(),
                self.complete() == old(self).complete(),
                self.on_disk() == old(self).on_disk(),
                self.threshold() == old(self).threshold(),
                self@.len() == n,
                n == old(self)@.len(),
                idx < p <= n,
                forall|j: int| 0 <= j < idx ==> self@[j] == old(self)@[j],
                forall|j: int| idx <= j < p - 1 ==> self@[j] == old(self)@[j + 1],
                self@[p - 1] == old(self)@[idx as int],
                forall|j: int| p <= j < n ==> self@[j] == old(self)@[j],
            decreases n - p,
        {
            let r = self.swap(p - 1, p);
            proof {
                if r is Err {
                    assert(false);
                }
            }
            p = p + 1;
        }
        let r = self.pop();
        proof {
            if r is Some {
                assert(self@ =~= old(self)@.remove(idx as int));
            }
        }
        r
    }

    /// Reverses the sequence in place, swapping pairs from both ends.
    pub fn reverse(&mut self) -> (r: Result<(), StoreError>)
        requires
            old(self).wf(),
        ensures
            final (self).wf(),
            r is Ok,
            final (self)@ == old(self)@.reverse(),
            final (self).complete() == old(self).complete(),
            final (self).on_disk() == old(self).on_disk(),
            final (self).threshold() == old(self).threshold(),
    {
        if self.len == 0 {
            proof {
                assert(self@ =~= old(self)@.reverse());
            }
            return Ok(());
        }
        let ghost n = self@.len();
        let mut front: usize = 0;
        let mut end: usize = self.len - 1;
        while front < end
            invariant
                self.wf(),
                self.complete() == old(self).complete(),
                self.on_disk() == old(self).on_disk(),
                self.threshold() == old(self).threshold(),
                self@.len() == n,
                n == old(self)@.len(),
                front + end == n - 1,
                end < n,
                forall|j: int| 0 <= j < front ==> self@[j] == old(self)@[n - 1 - j],
                forall|j: int| end < j < n ==> self@[j] == old(self)@[n - 1 - j],
                forall|j: int| front <= j <= end ==> self@[j] == old(self)@[j],
            decreases n - front,
        {
            let r = self.swap(front, end);
            proof {
                if r is Err {
                    assert(false);
                }
            }
            front = front + 1;
            end = end - 1;
        }
        proof {
            assert(self@ =~= old(self)@.reverse());
        }
        Ok(())
    }

    /// All elements in order as a plain vector; the sequence itself is
    /// untouched, so repeated calls yield the same elements.
    pub fn to_vec(&mut self) -> (r: Result<Vec<ValueType>, StoreError>)
        requires
            old(self).wf(),
        ensures
            final (self).wf(),
            final (self)@ == old(self)@,
            final (self).complete() == old(self).complete(),
            final (self).on_disk() == old(self).on_disk(),
            final (self).threshold() == old(self).threshold(),
            r matches Ok(v) ==> v@.len() == old(self)@.len() && forall|i: int|
                0 <= i < v@.len() ==> (#[trigger] v@[i]).deep_view() == old(self)@[i],
            !old(self).on_disk() && old(self).complete() ==> r is Ok,
    {
        let mut out: Vec<ValueType> = Vec::new();
        let n = self.len;
        let mut i: usize = 0;
        while i < n
            invariant
                self.wf(),
                self@ == old(self)@,
                self.complete() == old(self).complete(),
                self.on_disk() == old(self).on_disk(),
                self.threshold() == old(self).threshold(),
                n == self@.len(),
                i <= n,
                out@.len() == i,
                forall|j: int|
                    0 <= j < i ==> (#[trigger] out@[j]).deep_view() == old(self)@[j],
            decreases n - i,
        {
            match self.get(i) {
                Some(v) => {
                    out.push(v);
                },
                None => {
                    return Err(StoreError::Io);
                },
            }
            i = i + 1;
        }
        Ok(out)
    }

    /// Keeps only the elements the predicate approves, preserving their
    /// order, with a single forward compaction pass of key swaps.  While
    /// the store is in memory mode the result is exactly the masked
    /// subsequence, each mask bit being a recorded verdict of the
    /// predicate on that element.
    #[verifier::rlimit(100)]
    #[verifier::spinoff_prover]
    /// Keeps only the elements the predicate approves, preserving their
    /// order, with a single forward compaction pass of key swaps followed
    /// by discarding the tail.  In every mode the result is a masked
    /// subsequence of the old elements; while the store is in memory mode
    /// each mask bit is additionally a recorded verdict of the predicate
    /// on that element.  (In disk mode an element whose record cannot be
    /// read back is dropped, its mask bit false without a verdict.)
    pub fn retain<F: Fn(&ValueType) -> bool>(&mut self, f: F)
        requires
            old(self).wf(),
            forall|v: ValueType| #[trigger] f.requires((&v,)),
        ensures
            final (self).wf(),
            final (self).on_disk() == old(self).on_disk(),
            final (self).threshold() == old(self).threshold(),
            final (self)@.len() <= old(self)@.len(),
            exists|mask: Seq<bool>|
                #![trigger mask_filter(old(self)@, mask)]
                mask.len() == old(self)@.len() && final (self)@ == mask_filter(old(self)@, mask),
            !old(self).on_disk() && old(self).complete() ==> final (self).complete() && (exists|
                mask: Seq<bool>,
                wits: Seq<ValueType>,
            |
                #![trigger mask.len(), wits.len()]
                {
                    &&& mask.len() == old(self)@.len()
                    &&& wits.len() == old(self)@.len()
                    &&& final (self)@ == mask_filter(old(self)@, mask)
                    &&& forall|i: int|
                        0 <= i < mask.len() ==> (#[trigger] wits[i]).deep_view() == old(self)@[i]
                            && call_ensures(f, (&wits[i],), mask[i])
                }),
    {
        let ghost n = self@.len();
        let ghost memmode = !self.on_disk() && self.complete();
        let ghost mut mask: Seq<bool> = Seq::empty();
        let ghost mut wits: Seq<ValueType> = Seq::empty();
        let mut write_pos: usize = 0;
        let len0 = self.len;
        let mut read_pos: usize = 0;
        while read_pos < len0
            invariant
                self.wf(),
                self.on_disk() == old(self).on_disk(),
                self.complete() == old(self).complete(),
                self.threshold() == old(self).threshold(),
                self@.len() == n,
                n == old(self)@.len(),
                len0 == n,
                read_pos <= n,
                write_pos <= read_pos,
                forall|v: ValueType| #[trigger] f.requires((&v,)),
                memmode == (!old(self).on_disk() && old(self).complete()),
                mask.len() == read_pos,
                write_pos == mask_filter(old(self)@.take(read_pos as int), mask).len(),
                forall|j: int|
                    0 <= j < write_pos ==> self@[j] == mask_filter(
                        old(self)@.take(read_pos as int),
                        mask,
                    )[j],
                forall|j: int| read_pos <= j < n ==> self@[j] == old(self)@[j],
                memmode ==> wits.len() == read_pos,
                memmode ==> forall|i: int|
                    0 <= i < read_pos ==> (#[trigger] wits[i]).deep_view() == old(self)@[i]
                        && call_ensures(f, (&wits[i],), mask[i]),
            decreases len0 - read_pos,
        {
            let ghost pre = *self;
            let ghost m_old = mask;
            let ghost so = old(self)@;
            let got = self.get(read_pos);
            let keep: bool = match &got {
                Some(value) => f(value),
                None => false,
            };
            let did_swap = got.is_some() && keep;
            if did_swap {
                let r = self.swap(read_pos, write_pos);
                proof {
                    if r is Err {
                        assert(false);
                    }
                }
            }
            proof {
                mask = m_old.push(keep);
                assert(so.take(read_pos + 1).drop_last() =~= so.take(read_pos as int));
                assert(mask.drop_last() =~= m_old);
                assert(so.take(read_pos + 1).last() == so[read_pos as int]);
                let prefix_old = mask_filter(so.take(read_pos as int), m_old);
                let prefix_new = mask_filter(so.take(read_pos + 1), mask);
                match &got {
                    Some(value) => {
                        if memmode {
                            wits = wits.push(*value);
                            assert(value.deep_view() == so[read_pos as int]);
                            assert(mask[read_pos as int] == keep);
                            assert(call_ensures(f, (&*value, ), keep));
                        }
                        if keep {
                            assert(prefix_new =~= prefix_old.push(so[read_pos as int]));
                            assert(prefix_new.len() == write_pos + 1);
                            assert forall|j: int| 0 <= j < write_pos + 1 implies self@[j]
                                == prefix_new[j] by {
                                if j < write_pos {
                                    assert(pre@[j] == prefix_old[j]);
                                    assert(self@[j] == pre@[j]);
                                } else {
                                    assert(self@[write_pos as int] == pre@[read_pos as int]);
                                    assert(pre@[read_pos as int] == so[read_pos as int]);
                                }
                            }
                            assert forall|j: int| read_pos + 1 <= j < n implies self@[j] == so[j]
                                by {
                                assert(pre@[j] == so[j]);
                                assert(self@[j] == pre@[j]);
                            }
                        } else {
                            assert(prefix_new =~= prefix_old);
                            assert(self@ == pre@);
                            assert forall|j: int| 0 <= j < write_pos implies self@[j]
                                == prefix_new[j] by {
                                assert(pre@[j] == prefix_old[j]);
                            }
                            assert forall|j: int| read_pos + 1 <= j < n implies self@[j] == so[j]
                                by {
                                assert(pre@[j] == so[j]);
                            }
                        }
                    },
                    None => {
                        if memmode {
                            assert(false);
                        }
                        assert(prefix_new =~= prefix_old);
                        assert(self@ == pre@);
                        assert forall|j: int| 0 <= j < write_pos implies self@[j]
                            == prefix_new[j] by {
                            assert(pre@[j] == prefix_old[j]);
                        }
                        assert forall|j: int| read_pos + 1 <= j < n implies self@[j] == so[j] by {
                            assert(pre@[j] == so[j]);
                        }
                    },
                }
            }
            if did_swap {
                write_pos = write_pos + 1;
            }
            read_pos = read_pos + 1;
            proof {
                if memmode {
                    assert(wits.len() == read_pos);
                    assert(forall|i: int|
                        0 <= i < read_pos ==> (#[trigger] wits[i]).deep_view() == old(self)@[i]
                            && call_ensures(f, (&wits[i],), mask[i]));
                }
            }
        }
        proof {
            assert(old(self)@.take(n as int) =~= old(self)@);
            assert(mask_filter(old(self)@.take(n as int), mask) == mask_filter(
                old(self)@,
                mask,
            ));
        }
        let ghost kept = mask_filter(old(self)@, mask);
        // the kept elements occupy the prefix; discard the leftovers
        while self.len > write_pos
            invariant
                self.wf(),
                self.on_disk() == old(self).on_disk(),
                self.threshold() == old(self).threshold(),
                write_pos <= self@.len(),
                self@.len() <= n,
                mask.len() == n,
                n == old(self)@.len(),
                write_pos == kept.len(),
                forall|j: int| 0 <= j < write_pos ==> self@[j] == kept[j],
                memmode == (!old(self).on_disk() && old(self).complete()),
                memmode ==> self.complete(),
                memmode ==> wits.len() == n,
                memmode ==> forall|i: int|
                    0 <= i < n ==> (#[trigger] wits[i]).deep_view() == old(self)@[i]
                        && call_ensures(f, (&wits[i],), mask[i]),
            decreases self@.len() - write_pos,
        {
            let last = self.len - 1;
            let ghost pre = *self;
            self.file_hash.discard(&last);
            self.len = last;
            proof {
                assert forall|k: usize| #[trigger] self.file_hash@.dom().contains(k) implies k
                    < self.len by {
                    assert(pre.file_hash@.dom().contains(k));
                    assert(k != last);
                }
                assert(self@ =~= pre@.drop_last());
                if memmode {
                    assert forall|k: usize| k < self.len implies
                        #[trigger] self.file_hash@.dom().contains(k) by {
                        assert(pre.file_hash@.dom().contains(k));
                    }
                }
            }
        }
        proof {
            assert(self@.len() == write_pos);
            assert(self@ =~= kept);
            assert(mask.len() == old(self)@.len() && self@ == mask_filter(old(self)@, mask));
            if memmode {
                assert({
                    &&& mask.len() == old(self)@.len()
                    &&& wits.len() == old(self)@.len()
                    &&& self@ == mask_filter(old(self)@, mask)
                    &&& forall|i: int|
                        0 <= i < mask.len() ==> (#[trigger] wits[i]).deep_view() == old(self)@[i]
                            && call_ensures(f, (&wits[i],), mask[i])
                });
            }
        }
    }

    /// Sorts in place by a caller-supplied comparator, using selection
    /// sort: swaps are cheap key exchanges, and no auxiliary storage is
    /// needed.  The elements are permuted, whatever the comparator does.
    /// Sorts in place by a caller-supplied comparator, using selection
    /// sort: swaps are cheap key exchanges, and no auxiliary storage is
    /// needed.  The elements are permuted whatever the comparator does;
    /// whenever the comparator's verdicts agree with a reflexive,
    /// transitive order on the element views, the result is sorted by
    /// that order.
    #[verifier::rlimit(100)]
    pub fn sort_by<F: Fn(&ValueType, &ValueType) -> core::cmp::Ordering>(&mut self, f: F) -> (r:
        Result<(), StoreError>)
        requires
            old(self).wf(),
            forall|a: ValueType, b: ValueType| #[trigger] f.requires((&a, &b)),
        ensures
            final (self).wf(),
            final (self).on_disk() == old(self).on_disk(),
            final (self).threshold() == old(self).threshold(),
            final (self)@.len() == old(self)@.len(),
            final (self)@.to_multiset() == old(self)@.to_multiset(),
            final (self).complete() == old(self).complete(),
            !old(self).on_disk() && old(self).complete() ==> r is Ok,
            forall|leq: spec_fn(ValueType::V, ValueType::V) -> bool|
                #![trigger comparator_agrees(f, leq)]
                preorder(leq) && comparator_agrees(f, leq) && r is Ok ==> sorted_by_leq(
                    final (self)@,
                    leq,
                ),
    {
        let n = self.len;
        let mut i: usize = 0;
        while i < n
            invariant
                self.wf(),
                self.on_disk() == old(self).on_disk(),
                self.complete() == old(self).complete(),
                self.threshold() == old(self).threshold(),
                self@.len() == n,
                n == old(self)@.len(),
                i <= n,
                forall|a: ValueType, b: ValueType| #[trigger] f.requires((&a, &b)),
                self@.to_multiset() == old(self)@.to_multiset(),
                forall|leq: spec_fn(ValueType::V, ValueType::V) -> bool|
                    #![trigger comparator_agrees(f, leq)]
                    preorder(leq) && comparator_agrees(f, leq) ==> ((forall|a: int, b: int|
                        0 <= a < b < i ==> #[trigger] leq(self@[a], self@[b])) && (forall|
                        a: int,
                        b: int,
                    |
                        0 <= a < i && i <= b < n ==> #[trigger] leq(self@[a], self@[b]))),
            decreases n - i,
        {
            let mut min_idx: usize = i;
            let mut j: usize = i + 1;
            while j < n
                invariant
                    self.wf(),
                    self.on_disk() == old(self).on_disk(),
                    self.complete() == old(self).complete(),
                    self.threshold() == old(self).threshold(),
                    self@.len() == n,
                    n == old(self)@.len(),
                    i < n,
                    i <= min_idx < n,
                    i < j,
                    forall|a: ValueType, b: ValueType| #[trigger] f.requires((&a, &b)),
                    self@.to_multiset() == old(self)@.to_multiset(),
                    forall|leq: spec_fn(ValueType::V, ValueType::V) -> bool|
                        #![trigger comparator_agrees(f, leq)]
                        preorder(leq) && comparator_agrees(f, leq) ==> ((forall|a: int, b: int|
                            0 <= a < b < i ==> #[trigger] leq(self@[a], self@[b])) && (forall|
                            a: int,
                            b: int,
                        |
                            0 <= a < i && i <= b < n ==> #[trigger] leq(self@[a], self@[b])) && (
                        forall|j2: int|
                            i <= j2 < j ==> #[trigger] leq(
                                self@[min_idx as int],
                                self@[j2],
                            ))),
                decreases n - j,
            {
                let row_j = match self.get(j) {
                    Some(v) => v,
                    None => {
                        proof {
                            if !self.on_disk() && self.complete() {
                                assert(false);
                            }
                        }
                        return Err(StoreError::Io);
                    },
                };
                let row_min = match self.get(min_idx) {
                    Some(v) => v,
                    None => {
                        proof {
                            if !self.on_disk() && self.complete() {
                                assert(false);
                            }
                        }
                        return Err(StoreError::Io);
                    },
                };
                let ghost m_prev = min_idx as int;
                let o = f(&row_j, &row_min);
                let is_less = matches!(o, core::cmp::Ordering::Less);
                if is_less {
                    min_idx = j;
                }
                proof {
                    assert(call_ensures(f, (&row_j, &row_min), o));
                    assert(row_j.deep_view() == self@[j as int]);
                    assert(row_min.deep_view() == self@[m_prev]);
                    assert forall|leq: spec_fn(ValueType::V, ValueType::V) -> bool|
                        #![trigger comparator_agrees(f, leq)]
                        preorder(leq) && comparator_agrees(f, leq) implies (forall|j2: int|
                        i <= j2 < j + 1 ==> #[trigger] leq(self@[min_idx as int], self@[j2])) by {
                        if is_less {
                            assert(o == core::cmp::Ordering::Less);
                            assert(leq(self@[j as int], self@[m_prev]));
                            assert forall|j2: int| i <= j2 < j + 1 implies #[trigger] leq(
                                self@[min_idx as int],
                                self@[j2],
                            ) by {
                                if j2 < j {
                                    assert(leq(self@[m_prev], self@[j2]));
                                } else {
                                    assert(leq(self@[j as int], self@[j as int]));
                                }
                            }
                        } else {
                            assert(o != core::cmp::Ordering::Less);
                            assert(leq(self@[m_prev], self@[j as int]));
                            assert forall|j2: int| i <= j2 < j + 1 implies #[trigger] leq(
                                self@[min_idx as int],
                                self@[j2],
                            ) by {
                                if j2 < j {
                                    assert(leq(self@[m_prev], self@[j2]));
                                }
                            }
                        }
                    }
                }
                j = j + 1;
            }
            let ghost pre = *self;
            let r = self.swap(i, min_idx);
            proof {
                if r is Err {
                    assert(false);
                }
                lemma_swap_to_multiset(pre@, i as int, min_idx as int);
                let ii = i as int;
                let mi = min_idx as int;
                assert forall|leq: spec_fn(ValueType::V, ValueType::V) -> bool|
                    #![trigger comparator_agrees(f, leq)]
                    preorder(leq) && comparator_agrees(f, leq) implies ((forall|a: int, b: int|
                    0 <= a < b < i + 1 ==> #[trigger] leq(self@[a], self@[b])) && (forall|
                    a: int,
                    b: int,
                |
                    0 <= a < i + 1 && i + 1 <= b < n ==> #[trigger] leq(self@[a], self@[b]))) by {
                    assert forall|b: int| ii <= b < n implies #[trigger] leq(
                        self@[ii],
                        self@[b],
                    ) by {
                        assert(self@[ii] == pre@[mi]);
                        if b == mi {
                            assert(self@[b] == pre@[ii]);
                            assert(leq(pre@[mi], pre@[ii]));
                        } else if b == ii {
                            assert(leq(pre@[mi], pre@[mi]));
                        } else {
                            assert(self@[b] == pre@[b]);
                            assert(leq(pre@[mi], pre@[b]));
                        }
                    }
                    assert forall|a: int, b: int| 0 <= a < b < i + 1 implies #[trigger] leq(
                        self@[a],
                        self@[b],
                    ) by {
                        if b < ii {
                            assert(self@[a] == pre@[a] && self@[b] == pre@[b]);
                            assert(leq(pre@[a], pre@[b]));
                        } else {
                            assert(self@[a] == pre@[a]);
                            assert(self@[ii] == pre@[mi]);
                            assert(leq(pre@[a], pre@[mi]));
                        }
                    }
                    assert forall|a: int, b: int| 0 <= a < i + 1 && i + 1 <= b < n implies
                        #[trigger] leq(self@[a], self@[b]) by {
                        if a < ii {
                            assert(self@[a] == pre@[a]);
                            if b == mi {
                                assert(self@[b] == pre@[ii]);
                                assert(leq(pre@[a], pre@[ii]));
                            } else {
                                assert(self@[b] == pre@[b]);
                                assert(leq(pre@[a], pre@[b]));
                            }
                        } else {
                            assert(leq(self@[ii], self@[b]));
                        }
                    }
                }
            }
            i = i + 1;
        }
        proof {
            assert forall|leq: spec_fn(ValueType::V, ValueType::V) -> bool|
                #![trigger comparator_agrees(f, leq)]
                preorder(leq) && comparator_agrees(f, leq) implies sorted_by_leq(self@, leq) by {
                assert(forall|a: int, b: int|
                    0 <= a < b < n ==> #[trigger] leq(self@[a], self@[b]));
            }
        }
        Ok(())
    }

    /// Empties the sequence and truncates the backing file.
    pub fn clear(&mut self) -> (r: Result<(), StoreError>)
        requires
            old(self).wf(),
        ensures
            final (self).wf(),
            final (self)@ == Seq::<ValueType::V>::empty(),
            final (self).complete(),
            final (self).on_disk() == old(self).on_disk(),
            final (self).threshold() == old(self).threshold(),
    {
        let r = self.file_hash.clear();
        self.len = 0;
        proof {
            assert(self@ =~= Seq::<ValueType::V>::empty());
        }
        match r {
            Ok(()) => Ok(()),
            Err(e) => Err(e),
        }
    }
}

} // verus!
