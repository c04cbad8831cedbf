//! A tiered map from keys to encodable values.  It starts purely in memory;
//! once an insert would push it past its entry-count threshold it flushes
//! everything to a temporary file and stays disk-backed for good, keeping
//! only a key-to-byte-range index in memory.

use crate::backing::BackingStore;
use crate::codec::StoreKey;
use crate::codec::StoreValue;
use crate::disk_free::covers;
use crate::disk_free::DiskFree;
use crate::disk_free::PositionLength;
use crate::errors::StoreError;
use vstd::prelude::*;

verus! {

/// Default number of entries kept in memory before the store spills to
/// disk; can be overridden per store.
pub const MAX_MEM_ENTRIES: usize = 5;

/// Keys of an association list are pairwise distinct, compared on views.
pub open spec fn distinct_key_views<KeyType: DeepView, T>(s: Seq<(KeyType, T)>) -> bool {
    forall|i: int, j: int|
        0 <= i < j < s.len() ==> (#[trigger] s[i]).0.deep_view() != (#[trigger] s[j]).0.deep_view()
}

/// The bytes of the backing store that a record occupies.
pub open spec fn region_bytes(c: Seq<u8>, pl: PositionLength) -> Seq<u8> {
    c.subrange(pl.position as int, pl.position + pl.length)
}

/// A record's byte range is addressable: it fits the address space, its
/// length fits a buffer, and a non-empty range lies inside the file.
pub open spec fn region_ok(pl: PositionLength, c: Seq<u8>) -> bool {
    &&& pl.position + pl.length <= u64::MAX
    &&& pl.length <= usize::MAX
    &&& pl.position + pl.length <= c.len()
}

/// Two records never share a byte.
pub open spec fn regions_disjoint(a: PositionLength, b: PositionLength) -> bool {
    ||| a.position + a.length <= b.position
    ||| b.position + b.length <= a.position
    ||| a.length == 0
    ||| b.length == 0
}

/// Whether byte `b` lies inside the record range `pl`.
pub open spec fn in_region(pl: PositionLength, b: int) -> bool {
    pl.position <= b < pl.position + pl.length
}

/// Exchanges the entries of two keys: values swap when both are present,
/// a single present key moves its value to the other key, and two absent
/// keys leave the map alone.
pub open spec fn map_swap<A, B>(m: Map<A, B>, k1: A, k2: A) -> Map<A, B> {
    if m.contains_key(k1) && m.contains_key(k2) {
        m.insert(k1, m[k2]).insert(k2, m[k1])
    } else if m.contains_key(k1) {
        m.remove(k1).insert(k2, m[k1])
    } else if m.contains_key(k2) {
        m.remove(k2).insert(k1, m[k2])
    } else {
        m
    }
}

/// A finite set matched exactly by the key views of a duplicate-free
/// association list has as many elements as the list.
proof fn lemma_dom_size<KeyType: DeepView, T>(s: Seq<(KeyType, T)>, d: Set<KeyType::V>)
    requires
        d.finite(),
        distinct_key_views(s),
        forall|i: int| 0 <= i < s.len() ==> d.contains((#[trigger] s[i]).0.deep_view()),
        forall|kv: KeyType::V|
            d.contains(kv) ==> exists|i: int|
                0 <= i < s.len() && (#[trigger] s[i]).0.deep_view() == kv,
    ensures
        d.len() == s.len(),
    decreases s.len(),
{
    if s.len() == 0 {
        assert(d =~= Set::<KeyType::V>::empty());
    } else {
        let lastv = s.last().0.deep_view();
        let s2 = s.drop_last();
        let d2 = d.remove(lastv);
        assert forall|kv: KeyType::V| d2.contains(kv) implies exists|i: int|
            0 <= i < s2.len() && (#[trigger] s2[i]).0.deep_view() == kv by {
            let i = choose|i: int| 0 <= i < s.len() && (#[trigger] s[i]).0.deep_view() == kv;
            assert(i != s.len() - 1);
            assert(s2[i] == s[i]);
        }
        assert forall|i: int| 0 <= i < s2.len() implies d2.contains(
            (#[trigger] s2[i]).0.deep_view(),
        ) by {
            assert(s2[i] == s[i]);
            assert(s[i].0.deep_view() != lastv);
        }
        lemma_dom_size::<KeyType, T>(s2, d2);
        assert(d.contains(lastv));
        assert(d =~= d2.insert(lastv));
        vstd::set::axiom_set_insert_len(d2, lastv);
    }
}

/// `FileHash` is the tiered key-value store.  Its mathematical content is a
/// map from key views to value views; the well-formedness invariant ties
/// that map to whichever representation is active.
pub struct FileHash<KeyType: StoreKey, ValueType: StoreValue> {
    mem: Vec<(KeyType, ValueType)>,
    index: Vec<(KeyType, PositionLength)>,
    free: DiskFree,
    store: BackingStore,
    max_mem_entries: usize,
    using_disk: bool,
    model: Ghost<Map<KeyType::V, ValueType::V>>,
}

impl<KeyType: StoreKey, ValueType: StoreValue> View for FileHash<KeyType, ValueType> {
    type V = Map<KeyType::V, ValueType::V>;

    closed spec fn view(&self) -> Map<KeyType::V, ValueType::V> {
        self.model@
    }
}

impl<KeyType: StoreKey, ValueType: StoreValue> FileHash<KeyType, ValueType> {
    /// Whether the store has irreversibly switched to its disk-backed mode.
    pub closed spec fn on_disk(self) -> bool {
        self.using_disk
    }

    /// The configured in-memory entry-count threshold.
    pub closed spec fn threshold(self) -> usize {
        self.max_mem_entries
    }

    /// The disk-side invariant: the free list and the record index describe
    /// disjoint parts of the backing file, and every indexed record holds
    /// the encoding of its model value.
    pub closed spec fn storage_wf(self) -> bool {
        let c = self.store.contents();
        let idx = self.index@;
        &&& self.store.wf()
        &&& self.free.wf()
        &&& distinct_key_views(idx)
        &&& forall|i: int| 0 <= i < idx.len() ==> region_ok((#[trigger] idx[i]).1, c)
        &&& forall|i: int|
            0 <= i < idx.len() ==> self.model@.dom().contains((#[trigger] idx[i]).0.deep_view())
        &&& forall|i: int|
            0 <= i < idx.len() ==> region_bytes(c, (#[trigger] idx[i]).1)
                == ValueType::spec_encoded(self.model@[idx[i].0.deep_view()])
        &&& forall|i: int, j: int|
            0 <= i < idx.len() && 0 <= j < idx.len() && i != j ==> regions_disjoint(
                (#[trigger] idx[i]).1,
                (#[trigger] idx[j]).1,
            )
        &&& forall|i: int, b: int|
            0 <= i < idx.len() && #[trigger] in_region(idx[i].1, b) ==> !covers(
                self.free.extents(),
                b,
            )
        &&& forall|b: int| covers(self.free.extents(), b) ==> 0 <= b < c.len()
    }

    pub closed spec fn wf(self) -> bool {
        let idx = self.index@;
        let m = self.mem@;
        &&& self.storage_wf()
        &&& self.model@.dom().finite()
        &&& distinct_key_views(m)
        &&& self.using_disk ==> m.len() == 0
        &&& self.using_disk ==> forall|kv: KeyType::V|
            self.model@.dom().contains(kv) ==> exists|i: int|
                0 <= i < idx.len() && (#[trigger] idx[i]).0.deep_view() == kv
        &&& !self.using_disk ==> forall|i: int|
            0 <= i < m.len() ==> self.model@.dom().contains((#[trigger] m[i]).0.deep_view())
                && self.model@[m[i].0.deep_view()] == m[i].1.deep_view()
        &&& !self.using_disk ==> forall|kv: KeyType::V|
            self.model@.dom().contains(kv) ==> exists|i: int|
                0 <= i < m.len() && (#[trigger] m[i]).0.deep_view() == kv
    }

    /// The store state in the middle of rewriting one key's record: the
    /// whole invariant holds except that `kv` may be missing from the
    /// index although the model still carries it.
    pub closed spec fn wf_except(self, kv: KeyType::V) -> bool {
        let idx = self.index@;
        let m = self.mem@;
        &&& self.storage_wf()
        &&& self.model@.dom().finite()
        &&& distinct_key_views(m)
        &&& self.using_disk ==> m.len() == 0
        &&& self.using_disk ==> forall|kv2: KeyType::V|
            self.model@.dom().contains(kv2) && kv2 != kv ==> exists|i: int|
                0 <= i < idx.len() && (#[trigger] idx[i]).0.deep_view() == kv2
        &&& !self.using_disk ==> forall|i: int|
            0 <= i < m.len() ==> self.model@.dom().contains((#[trigger] m[i]).0.deep_view())
                && self.model@[m[i].0.deep_view()] == m[i].1.deep_view()
        &&& !self.using_disk ==> forall|kv2: KeyType::V|
            self.model@.dom().contains(kv2) ==> exists|i: int|
                0 <= i < m.len() && (#[trigger] m[i]).0.deep_view() == kv2
    }

    pub fn new() -> (r: Self)
        ensures
            r.wf(),
            r@ == Map::<KeyType::V, ValueType::V>::empty(),
            !r.on_disk(),
            r.threshold() == MAX_MEM_ENTRIES,
    {
        let r = FileHash {
            mem: Vec::new(),
            index: Vec::new(),
            free: DiskFree::new(),
            store: BackingStore::new(),
            max_mem_entries: MAX_MEM_ENTRIES,
            using_disk: false,
            model: Ghost(Map::empty()),
        };
        r
    }

    fn find_mem(&self, key: &KeyType) -> (r: Option<usize>)
        ensures
            match r {
                Some(i) => 0 <= i < self.mem@.len() && (#[trigger] self.mem@[i as int]).0.deep_view()
                    == key.deep_view(),
                None => forall|j: int|
                    0 <= j < self.mem@.len() ==> (#[trigger] self.mem@[j]).0.deep_view()
                        != key.deep_view(),
            },
    {
        let n = self.mem.len();
        for i in 0..n
            invariant
                n == self.mem@.len(),
                forall|j: int|
                    0 <= j < i ==> (#[trigger] self.mem@[j]).0.deep_view() != key.deep_view(),
        {
            if self.mem[i].0.key_eq(key) {
                return Some(i);
            }
        }
        None
    }

    fn find_idx(&self, key: &KeyType) -> (r: Option<usize>)
        ensures
            match r {
                Some(i) => 0 <= i < self.index@.len() && (#[trigger] self.index@[i as int]).0.deep_view()
                    == key.deep_view(),
                None => forall|j: int|
                    0 <= j < self.index@.len() ==> (#[trigger] self.index@[j]).0.deep_view()
                        != key.deep_view(),
            },
    {
        let n = self.index.len();
        for i in 0..n
            invariant
                n == self.index@.len(),
                forall|j: int|
                    0 <= j < i ==> (#[trigger] self.index@[j]).0.deep_view() != key.deep_view(),
        {
            if self.index[i].0.key_eq(key) {
                return Some(i);
            }
        }
        None
    }

    /// Whether the store has switched to its disk-backed mode.
    pub fn is_on_disk(&self) -> (r: bool)
        ensures
            r == self.on_disk(),
    {
        self.using_disk
    }

    pub fn len(&self) -> (r: usize)
        requires
            self.wf(),
        ensures
            r == self@.dom().len(),
    {
        if self.using_disk {
            proof {
                lemma_dom_size::<KeyType, PositionLength>(self.index@, self.model@.dom());
            }
            self.index.len()
        } else {
            proof {
                lemma_dom_size::<KeyType, ValueType>(self.mem@, self.model@.dom());
            }
            self.mem.len()
        }
    }

    pub fn is_empty(&self) -> (r: bool)
        requires
            self.wf(),
        ensures
            r == (self@.dom().len() == 0),
    {
        self.len() == 0
    }

    pub fn contains(&self, key: &KeyType) -> (r: bool)
        requires
            self.wf(),
        ensures
            r == self@.contains_key(key.deep_view()),
    {
        if self.using_disk {
            self.find_idx(key).is_some()
        } else {
            self.find_mem(key).is_some()
        }
    }

    /// Looks a key up.  In memory mode the answer is exact; in disk mode a
    /// read failure of the backing file also answers `None`.
    pub fn get(&mut self, key: &KeyType) -> (r: Option<ValueType>)
        requires
            old(self).wf(),
        ensures
            final (self).wf(),
            final (self)@ == old(self)@,
            final (self).on_disk() == old(self).on_disk(),
            final (self).threshold() == old(self).threshold(),
            match r {
                Some(v) => old(self)@.contains_key(key.deep_view()) && v.deep_view() == old(
                    self,
                )@[key.deep_view()],
                None => old(self).on_disk() || !old(self)@.contains_key(key.deep_view()),
            },
            !old(self)@.contains_key(key.deep_view()) ==> r is None,
    {
        if !self.using_disk {
            match self.find_mem(key) {
                Some(i) => {
                    let v = self.mem[i].1.val_dup();
                    Some(v)
                },
                None => None,
            }
        } else {
            match self.find_idx(key) {
                Some(i) => {
                    let pl = self.index[i].1;
                    match self.store.read_at(pl.position, pl.length as usize) {
                        Ok(bytes) => {
                            proof {
                                assert(bytes@ =~= region_bytes(
                                    old(self).store.contents(),
                                    self.index@[i as int].1,
                                ));
                            }
                            match ValueType::decode(bytes.as_slice()) {
                                Some(v) => Some(v),
                                None => {
                                    proof {
                                        assert(false);
                                    }
                                    None
                                },
                            }
                        },
                        Err(_) => None,
                    }
                },
                None => None,
            }
        }
    }

    /// Drops any disk region the key currently owns and returns it to the
    /// free list; the store's mathematical content is untouched.
    #[verifier::rlimit(100)]
    fn release_storage(&mut self, key: &KeyType)
        requires
            old(self).wf(),
        ensures
            final (self).wf_except(key.deep_view()),
            final (self)@ == old(self)@,
            final (self).on_disk() == old(self).on_disk(),
            final (self).threshold() == old(self).threshold(),
            final (self).mem@ == old(self).mem@,
            final (self).store == old(self).store,
            forall|j: int|
                0 <= j < final (self).index@.len() ==> (#[trigger] final (self).index@[j]).0.deep_view()
                    != key.deep_view(),
            forall|i: int|
                0 <= i < old(self).index@.len() && (#[trigger] old(self).index@[i]).0.deep_view()
                    != key.deep_view() ==> (exists|j: int|
                    0 <= j < final (self).index@.len() && (#[trigger] final (self).index@[j]).0.deep_view()
                        == old(self).index@[i].0.deep_view()),
            final (self).index@ == old(self).index@ || (exists|i: int|
                0 <= i < old(self).index@.len() && (#[trigger] old(self).index@[i]).0.deep_view()
                    == key.deep_view() && final (self).index@ == old(self).index@.remove(i)),
    {
        let ghost idx0 = self.index@;
        match self.find_idx(key) {
            Some(i) => {
                let pl = self.index[i].1;
                self.index.remove(i);
                proof {
                    let idx1 = self.index@;
                    assert forall|a: int|
                        0 <= a < idx0.len() && (#[trigger] idx0[a]).0.deep_view()
                            != key.deep_view() implies (exists|j: int|
                        0 <= j < idx1.len() && (#[trigger] idx1[j]).0.deep_view()
                            == idx0[a].0.deep_view()) by {
                        assert(a != i);
                        if a < i {
                            assert(idx1[a] == idx0[a]);
                        } else {
                            assert(idx1[a - 1] == idx0[a]);
                        }
                    }
                    assert forall|j: int| 0 <= j < self.index@.len() implies (#[trigger] self.index@[j]).0.deep_view()
                        != key.deep_view() by {
                        if j < i {
                            assert(self.index@[j] == idx0[j]);
                        } else {
                            assert(self.index@[j] == idx0[j + 1]);
                        }
                    }
                    if self.using_disk {
                        assert forall|kv2: KeyType::V|
                            self.model@.dom().contains(kv2) && kv2 != key.deep_view() implies
                            exists|j: int|
                            0 <= j < idx1.len() && (#[trigger] idx1[j]).0.deep_view() == kv2 by {
                            let a = choose|a: int|
                                0 <= a < idx0.len() && (#[trigger] idx0[a]).0.deep_view() == kv2;
                            assert(a != i);
                            if a < i {
                                assert(idx1[a] == idx0[a]);
                            } else {
                                assert(idx1[a - 1] == idx0[a]);
                            }
                        }
                    }
                    // every surviving entry keeps its facts, at a shifted
                    // place
                    assert forall|j: int| 0 <= j < idx1.len() implies region_ok(
                        (#[trigger] idx1[j]).1,
                        self.store.contents(),
                    ) && self.model@.dom().contains(idx1[j].0.deep_view()) && region_bytes(
                        self.store.contents(),
                        idx1[j].1,
                    ) == ValueType::spec_encoded(self.model@[idx1[j].0.deep_view()]) by {
                        if j < i {
                            assert(idx1[j] == idx0[j]);
                        } else {
                            assert(idx1[j] == idx0[j + 1]);
                        }
                    }
                    assert forall|a: int, b2: int|
                        0 <= a < idx1.len() && 0 <= b2 < idx1.len() && a != b2 implies
                        regions_disjoint((#[trigger] idx1[a]).1, (#[trigger] idx1[b2]).1) by {
                        let a0: int = if a < i {
                            a
                        } else {
                            a + 1
                        };
                        let b0: int = if b2 < i {
                            b2
                        } else {
                            b2 + 1
                        };
                        assert(idx1[a] == idx0[a0] && idx1[b2] == idx0[b0]);
                        assert(regions_disjoint(idx0[a0].1, idx0[b0].1));
                    }
                    assert forall|a: int, b2: int| 0 <= a < b2 < idx1.len() implies (
                    #[trigger] idx1[a]).0.deep_view() != (#[trigger] idx1[b2]).0.deep_view() by {
                        let a0: int = if a < i {
                            a
                        } else {
                            a + 1
                        };
                        let b0: int = if b2 < i {
                            b2
                        } else {
                            b2 + 1
                        };
                        assert(idx1[a] == idx0[a0] && idx1[b2] == idx0[b0]);
                    }
                    assert forall|j: int, b: int|
                        0 <= j < idx1.len() && #[trigger] in_region(idx1[j].1, b) implies !covers(
                        old(self).free.extents(),
                        b,
                    ) by {
                        if j < i {
                            assert(idx1[j] == idx0[j]);
                        } else {
                            assert(idx1[j] == idx0[j + 1]);
                        }
                    }
                }
                if pl.length() > 0 {
                    proof {
                        // the released range cannot overlap a free extent:
                        // its bytes are record bytes, which the invariant
                        // keeps out of the free list
                        let fe = self.free.extents();
                        assert forall|e: int| 0 <= e < fe.len() implies pl.position + pl.length
                            <= (#[trigger] fe[e]).position || fe[e].position + fe[e].length
                            <= pl.position by {
                            if !(pl.position + pl.length <= fe[e].position || fe[e].position
                                + fe[e].length <= pl.position) {
                                let b: int = if pl.position >= fe[e].position {
                                    pl.position as int
                                } else {
                                    fe[e].position as int
                                };
                                assert(in_region(pl, b));
                                assert(in_region(idx0[i as int].1, b));
                                assert(fe[e].position <= b < fe[e].position + fe[e].length);
                                assert(covers(fe, b));
                            }
                        }
                    }
                    self.free.add(pl);
                    proof {
                        assert forall|j: int, b: int|
                            0 <= j < self.index@.len() && #[trigger] in_region(
                                self.index@[j].1,
                                b,
                            ) implies !covers(self.free.extents(), b) by {
                            let jj: int = if j < i {
                                j
                            } else {
                                j + 1
                            };
                            assert(self.index@[j] == idx0[jj]);
                            assert(regions_disjoint(idx0[jj].1, idx0[i as int].1));
                            assert(!in_region(idx0[i as int].1, b));
                            assert(!covers(old(self).free.extents(), b));
                        }
                        assert forall|b: int| covers(self.free.extents(), b) implies 0 <= b
                            < self.store.contents().len() by {
                            if !covers(old(self).free.extents(), b) {
                                assert(in_region(pl, b));
                                assert(region_ok(idx0[i as int].1, self.store.contents()));
                            }
                        }
                    }
                }
            },
            None => {},
        }
    }

    /// Writes one record to the disk side: releases the key's old region,
    /// encodes the value, places it in a free range or appends it, and
    /// records the new location in the index.
    #[verifier::rlimit(100)]
    fn insert_disk_entry(&mut self, key: KeyType, value: ValueType) -> (r: Result<
        (),
        StoreError,
    >)
        requires
            old(self).wf(),
            !old(self).using_disk ==> exists|j: int|
                0 <= j < old(self).mem@.len() && (#[trigger] old(self).mem@[j]).0.deep_view()
                    == key.deep_view() && old(self).mem@[j].1.deep_view() == value.deep_view(),
        ensures
            final (self).wf(),
            final (self).on_disk() == old(self).on_disk(),
            final (self).threshold() == old(self).threshold(),
            final (self).mem@ == old(self).mem@,
            r is Ok ==> final (self)@ == old(self)@.insert(key.deep_view(), value.deep_view()),
            r is Ok ==> exists|j: int|
                0 <= j < final (self).index@.len() && (#[trigger] final (self).index@[j]).0.deep_view()
                    == key.deep_view(),
            forall|i: int|
                0 <= i < old(self).index@.len() && (#[trigger] old(self).index@[i]).0.deep_view()
                    != key.deep_view() ==> (exists|j: int|
                    0 <= j < final (self).index@.len() && (#[trigger] final (self).index@[j]).0.deep_view()
                        == old(self).index@[i].0.deep_view()),
            r is Err ==> final (self)@ == old(self)@ || final (self)@ == old(self)@.remove(
                key.deep_view(),
            ),
            r is Err && !old(self).using_disk ==> final (self)@ == old(self)@,
    {
        self.release_storage(&key);
        let ghost kv = key.deep_view();
        let ghost vv = value.deep_view();
        let bytes = value.encode();
        let size = bytes.len() as u64;
        let ghost mid = *self;
        let position: u64;
        match self.free.find_free(size) {
            Some(p) => {
                position = p;
                proof {
                    // the handed-out range was free, so no record lies in it
                    assert forall|j: int, b: int|
                        0 <= j < mid.index@.len() && #[trigger] in_region(mid.index@[j].1, b)
                        implies !(p <= b < p + size) by {
                        assert(!covers(mid.free.extents(), b));
                    }
                }
                if size > 0 {
                    match self.store.write_at(p, bytes.as_slice()) {
                        Ok(()) => {},
                        Err(_) => {
                            if self.using_disk {
                                self.model = Ghost(self.model@.remove(kv));
                            }
                            proof {
                                self.lemma_after_placement_failure(mid, kv, p as int, size as int);
                            }
                            return Err(StoreError::Io);
                        },
                    }
                }
                proof {
                    if size > 0 {
                        assert(covers(mid.free.extents(), position + size - 1));
                    } else {
                        assert(covers(mid.free.extents(), position as int));
                    }
                    assert(position + size <= mid.store.contents().len());
                    assert(position + size <= u64::MAX);
                    assert(position + size <= self.store.contents().len());
                    assert(self.store.contents().len() >= mid.store.contents().len());
                    assert forall|b: int| covers(self.free.extents(), b) implies covers(
                        mid.free.extents(),
                        b,
                    ) && !(position <= b < position + size) by {}
                    assert forall|b: int|
                        0 <= b < mid.store.contents().len() && !(position <= b < position + size)
                        implies self.store.contents()[b] == mid.store.contents()[b] by {}
                    assert(region_bytes(
                        self.store.contents(),
                        PositionLength { position, length: size },
                    ) =~= bytes@);
                    assert forall|j: int, b: int|
                        0 <= j < mid.index@.len() && #[trigger] in_region(mid.index@[j].1, b)
                        implies !(position <= b < position + size) by {}
                }
            },
            None => {
                let ghost flen = self.store.contents().len() as int;
                proof {
                    assert forall|j: int, b: int|
                        0 <= j < mid.index@.len() && #[trigger] in_region(mid.index@[j].1, b)
                        implies !(flen <= b < flen + size) by {
                        assert(region_ok(mid.index@[j].1, mid.store.contents()));
                    }
                }
                match self.store.write_append(bytes.as_slice()) {
                    Ok(off) => {
                        position = off;
                        proof {
                            assert(position == mid.store.contents().len());
                            assert(position + size <= u64::MAX);
                            assert(position + size <= self.store.contents().len());
                            assert(self.store.contents().len() >= mid.store.contents().len());
                            assert forall|b: int| covers(self.free.extents(), b) implies covers(
                                mid.free.extents(),
                                b,
                            ) && !(position <= b < position + size) by {
                                assert(0 <= b < mid.store.contents().len());
                            }
                            assert forall|b: int|
                                0 <= b < mid.store.contents().len() && !(position <= b < position
                                    + size) implies self.store.contents()[b]
                                == mid.store.contents()[b] by {}
                            assert(region_bytes(
                                self.store.contents(),
                                PositionLength { position, length: size },
                            ) =~= bytes@);
                            assert forall|j: int, b: int|
                                0 <= j < mid.index@.len() && #[trigger] in_region(
                                    mid.index@[j].1,
                                    b,
                                ) implies !(position <= b < position + size) by {}
                        }
                    },
                    Err(_) => {
                        if self.using_disk {
                            self.model = Ghost(self.model@.remove(kv));
                        }
                        proof {
                            self.lemma_after_placement_failure(mid, kv, flen, size as int);
                        }
                        return Err(StoreError::Io);
                    },
                }
            },
        }
        let pl = PositionLength::new(position, size);
        self.index.push((key, pl));
        self.model = Ghost(self.model@.insert(kv, vv));
        proof {
            let c0 = mid.store.contents();
            let c = self.store.contents();
            let idx = self.index@;
            let n = idx.len() - 1;
            assert(idx[n].1 == pl);
            assert(idx[n].0.deep_view() == kv);
            assert(forall|j: int| 0 <= j < n ==> idx[j] == mid.index@[j]);
            assert(distinct_key_views(idx)) by {
                assert(forall|j: int|
                    0 <= j < n ==> (#[trigger] idx[j]).0.deep_view() != kv);
            }
            // the new range is disjoint from every older record byte
            assert forall|j: int, b: int|
                0 <= j < n && #[trigger] in_region(idx[j].1, b) implies !(position <= b < position
                + size) by {
                assert(in_region(mid.index@[j].1, b));
            }
            // the new record's bytes are exactly the encoded value
            assert(position + size <= c.len());
            assert(region_bytes(c, pl) =~= bytes@);
            // older records keep their bytes
            assert forall|j: int| 0 <= j < n implies region_bytes(c, (#[trigger] idx[j]).1)
                == region_bytes(c0, idx[j].1) by {
                let plj = idx[j].1;
                assert(region_ok(plj, c0));
                assert forall|b: int| plj.position <= b < plj.position + plj.length implies c[b]
                    == c0[b] by {
                    assert(in_region(plj, b));
                    assert(!(position <= b < position + size));
                }
                assert(region_bytes(c, plj) =~= region_bytes(c0, plj));
            }
            assert forall|i: int, j: int|
                0 <= i < idx.len() && 0 <= j < idx.len() && i != j implies regions_disjoint(
                (#[trigger] idx[i]).1,
                (#[trigger] idx[j]).1,
            ) by {
                if i == n || j == n {
                    let o: int = if i == n {
                        j
                    } else {
                        i
                    };
                    if size > 0 && idx[o].1.length > 0 {
                        if !(idx[o].1.position + idx[o].1.length <= position || position + size
                            <= idx[o].1.position) {
                            let b: int = if idx[o].1.position >= position {
                                idx[o].1.position as int
                            } else {
                                position as int
                            };
                            assert(in_region(idx[o].1, b));
                            assert(!(position <= b < position + size));
                            assert(false);
                        }
                    }
                } else {
                    assert(regions_disjoint(mid.index@[i].1, mid.index@[j].1));
                }
            }
            assert forall|j: int, b: int|
                0 <= j < idx.len() && #[trigger] in_region(idx[j].1, b) implies !covers(
                self.free.extents(),
                b,
            ) by {
                if j < n {
                    assert(!covers(mid.free.extents(), b));
                } else {
                    assert(in_region(pl, b));
                    if covers(self.free.extents(), b) {
                        assert(!(position <= b < position + size));
                        assert(false);
                    }
                }
            }
            assert forall|b: int| covers(self.free.extents(), b) implies 0 <= b < c.len() by {
                assert(covers(mid.free.extents(), b));
            }
            assert forall|j: int| 0 <= j < idx.len() implies region_ok((#[trigger] idx[j]).1, c)
                by {
                if j < n {
                    assert(region_ok(mid.index@[j].1, c0));
                }
            }
            // the per-mode key inventories still match the model
            if self.using_disk {
                assert forall|kv2: KeyType::V| self.model@.dom().contains(kv2) implies exists|
                    i: int,
                |
                    0 <= i < idx.len() && (#[trigger] idx[i]).0.deep_view() == kv2 by {
                    if kv2 == kv {
                        assert(idx[n].0.deep_view() == kv2);
                    } else {
                        assert(mid.model@.dom().contains(kv2));
                        let i = choose|i: int|
                            0 <= i < mid.index@.len() && (#[trigger] mid.index@[i]).0.deep_view()
                                == kv2;
                        assert(idx[i].0.deep_view() == kv2);
                    }
                }
            } else {
                assert forall|i: int| 0 <= i < self.mem@.len() implies self.model@.dom().contains(
                    (#[trigger] self.mem@[i]).0.deep_view(),
                ) && self.model@[self.mem@[i].0.deep_view()] == self.mem@[i].1.deep_view() by {
                    if self.mem@[i].0.deep_view() == kv {
                        let j = choose|j: int|
                            0 <= j < old(self).mem@.len() && (#[trigger] old(self).mem@[j]).0.deep_view()
                                == kv && old(self).mem@[j].1.deep_view() == vv;
                        assert(self.mem@[j].0.deep_view() == self.mem@[i].0.deep_view());
                        assert(j == i) by {
                            if j != i {
                                assert(distinct_key_views(self.mem@));
                            }
                        }
                        assert(self.mem@[i].1.deep_view() == vv);
                    }
                }
                assert forall|kv2: KeyType::V| self.model@.dom().contains(kv2) implies exists|
                    i: int,
                |
                    0 <= i < self.mem@.len() && (#[trigger] self.mem@[i]).0.deep_view() == kv2 by {
                    if kv2 == kv {
                        let j = choose|j: int|
                            0 <= j < old(self).mem@.len() && (#[trigger] old(self).mem@[j]).0.deep_view()
                                == kv && old(self).mem@[j].1.deep_view() == vv;
                        assert(self.mem@[j].0.deep_view() == kv2);
                    } else {
                        assert(mid.model@.dom().contains(kv2));
                        let t0 = choose|t: int|
                            0 <= t < mid.mem@.len() && (#[trigger] mid.mem@[t]).0.deep_view()
                                == kv2;
                        assert(self.mem@[t0].0.deep_view() == kv2);
                    }
                }
            }
            // keys other than the inserted one keep an index entry
            assert forall|i: int|
                0 <= i < old(self).index@.len() && (#[trigger] old(self).index@[i]).0.deep_view()
                    != kv implies (exists|j: int|
                0 <= j < idx.len() && (#[trigger] idx[j]).0.deep_view()
                    == old(self).index@[i].0.deep_view()) by {
                let j = choose|j: int|
                    0 <= j < mid.index@.len() && (#[trigger] mid.index@[j]).0.deep_view() == old(
                        self,
                    ).index@[i].0.deep_view();
                assert(idx[j].0.deep_view() == old(self).index@[i].0.deep_view());
            }
        }
        Ok(())
    }

    /// Flushes every in-memory entry to disk and flips the store into its
    /// disk-backed mode, for good.  On failure the store stays in memory
    /// mode with its content intact.
    fn flush_mem_to_disk(&mut self) -> (r: Result<(), StoreError>)
        requires
            old(self).wf(),
            !old(self).using_disk,
        ensures
            final (self).wf(),
            final (self)@ == old(self)@,
            final (self).threshold() == old(self).threshold(),
            r is Ok ==> final (self).on_disk(),
            r is Err ==> !final (self).on_disk(),
    {
        let n = self.mem.len();
        let mut i: usize = 0;
        while i < n
            invariant
                self.wf(),
                !self.using_disk,
                i <= n,
                n == self.mem@.len(),
                self@ == old(self)@,
                self.mem@ == old(self).mem@,
                self.max_mem_entries == old(self).max_mem_entries,
                forall|j: int| #![trigger self.mem@[j]]
                    0 <= j < i ==> exists|t: int|
                        0 <= t < self.index@.len() && (#[trigger] self.index@[t]).0.deep_view()
                            == self.mem@[j].0.deep_view(),
            decreases n - i,
        {
            let k = self.mem[i].0.key_dup();
            let v = self.mem[i].1.val_dup();
            let ghost pre = *self;
            proof {
                assert(0 <= i < self.mem@.len() && self.mem@[i as int].0.deep_view()
                    == k.deep_view() && self.mem@[i as int].1.deep_view() == v.deep_view());
            }
            match self.insert_disk_entry(k, v) {
                Ok(()) => {},
                Err(e) => {
                    return Err(e);
                },
            }
            proof {
                // the key is already in the model with this very value, so
                // re-recording it changes nothing
                assert(pre.model@.contains_key(k.deep_view()));
                assert(pre.model@[k.deep_view()] == v.deep_view());
                assert(self@ =~= pre@);
                assert forall|j: int| #![trigger self.mem@[j]] 0 <= j < i + 1 implies exists|
                    t: int,
                |
                    0 <= t < self.index@.len() && (#[trigger] self.index@[t]).0.deep_view()
                        == self.mem@[j].0.deep_view() by {
                    if j == i {
                        let t0 = choose|t: int|
                            0 <= t < self.index@.len() && (#[trigger] self.index@[t]).0.deep_view()
                                == k.deep_view();
                        assert(self.index@[t0].0.deep_view() == self.mem@[j].0.deep_view());
                    } else {
                        let t0 = choose|t: int|
                            0 <= t < pre.index@.len() && (#[trigger] pre.index@[t]).0.deep_view()
                                == self.mem@[j].0.deep_view();
                        assert(pre.index@[t0].0.deep_view() != k.deep_view());
                    }
                }
            }
            i += 1;
        }
        let ghost pre2 = *self;
        self.mem.clear();
        self.using_disk = true;
        proof {
            assert forall|kv2: KeyType::V| self.model@.dom().contains(kv2) implies exists|t: int|
                0 <= t < self.index@.len() && (#[trigger] self.index@[t]).0.deep_view() == kv2 by {
                assert(pre2.model@.dom().contains(kv2));
                let j = choose|j: int|
                    0 <= j < pre2.mem@.len() && (#[trigger] pre2.mem@[j]).0.deep_view() == kv2;
                assert(0 <= j < n);
                assert(exists|t: int|
                    0 <= t < pre2.index@.len() && (#[trigger] pre2.index@[t]).0.deep_view()
                        == pre2.mem@[j].0.deep_view());
                assert(self.index@ == pre2.index@);
            }
            assert(self.wf());
        }
        Ok(())
    }

    /// Adds or replaces the value stored under a key.  While the store is
    /// in memory mode and the new entry count stays within the threshold,
    /// the entry goes to the in-memory map and the call cannot fail; an
    /// insert that would exceed the threshold first flushes everything to
    /// disk, and a disk-backed store writes the record to its file.
    pub fn insert(&mut self, key: KeyType, value: ValueType) -> (r: Result<(), StoreError>)
        requires
            old(self).wf(),
        ensures
            final (self).wf(),
            final (self).threshold() == old(self).threshold(),
            old(self).on_disk() ==> final (self).on_disk(),
            r is Ok ==> final (self)@ == old(self)@.insert(key.deep_view(), value.deep_view()),
            r is Ok ==> (final (self).on_disk() <==> (old(self).on_disk() || old(self)@.insert(
                key.deep_view(),
                value.deep_view(),
            ).dom().len() > old(self).threshold())),
            r is Ok && !final (self).on_disk() ==> final (self)@.dom().len() <= final (
                self).threshold(),
            !old(self).on_disk() && old(self)@.insert(key.deep_view(), value.deep_view()).dom().len()
                <= old(self).threshold() ==> r is Ok,
            r is Err ==> final (self)@ == old(self)@ || final (self)@ == old(self)@.remove(
                key.deep_view(),
            ),
    {
        let ghost kv = key.deep_view();
        let ghost vv = value.deep_view();
        if self.using_disk {
            self.insert_disk_entry(key, value)
        } else {
            proof {
                lemma_dom_size::<KeyType, ValueType>(self.mem@, self.model@.dom());
            }
            let found = self.find_mem(&key);
            proof {
                match found {
                    Some(i) => {
                        assert(self.model@.contains_key(kv));
                        assert(self.model@.insert(kv, vv).dom() =~= self.model@.dom());
                    },
                    None => {
                        assert(!self.model@.contains_key(kv));
                        assert(self.model@.insert(kv, vv).dom() =~= self.model@.dom().insert(kv));
                        vstd::set::axiom_set_insert_len(self.model@.dom(), kv);
                    },
                }
            }
            let fits = match found {
                Some(_) => self.mem.len() <= self.max_mem_entries,
                None => self.mem.len() < self.max_mem_entries,
            };
            if fits {
                match found {
                    Some(i) => {
                        self.release_storage(&key);
                        let ghost pre = *self;
                        self.mem[i] = (key, value);
                        self.model = Ghost(self.model@.insert(kv, vv));
                        proof {
                            let m = self.mem@;
                            assert forall|a: int, b: int| 0 <= a < b < m.len() implies (
                            #[trigger] m[a]).0.deep_view() != (#[trigger] m[b]).0.deep_view() by {
                                assert(pre.mem@[a].0.deep_view() == m[a].0.deep_view());
                                assert(pre.mem@[b].0.deep_view() == m[b].0.deep_view());
                            }
                            assert forall|j: int| 0 <= j < self.index@.len() implies
                                self.model@.dom().contains(
                                (#[trigger] self.index@[j]).0.deep_view()) && region_bytes(
                                self.store.contents(),
                                self.index@[j].1,
                            ) == ValueType::spec_encoded(
                                self.model@[self.index@[j].0.deep_view()],
                            ) by {
                                assert(self.index@[j].0.deep_view() != kv);
                            }
                            assert forall|kv2: KeyType::V| self.model@.dom().contains(kv2)
                                implies exists|t: int|
                                0 <= t < m.len() && (#[trigger] m[t]).0.deep_view() == kv2 by {
                                if kv2 == kv {
                                    assert(m[i as int].0.deep_view() == kv2);
                                } else {
                                    let t0 = choose|t: int|
                                        0 <= t < pre.mem@.len() && (#[trigger] pre.mem@[t]).0.deep_view()
                                            == kv2;
                                    assert(t0 != i);
                                    assert(m[t0].0.deep_view() == kv2);
                                }
                            }
                        }
                        Ok(())
                    },
                    None => {
                        let ghost pre = *self;
                        self.mem.push((key, value));
                        self.model = Ghost(self.model@.insert(kv, vv));
                        proof {
                            let m = self.mem@;
                            let n = m.len() - 1;
                            assert(m[n].0.deep_view() == kv);
                            assert forall|a: int, b: int| 0 <= a < b < m.len() implies (
                            #[trigger] m[a]).0.deep_view() != (#[trigger] m[b]).0.deep_view() by {
                                if b < n {
                                    assert(pre.mem@[a] == m[a] && pre.mem@[b] == m[b]);
                                } else {
                                    assert(pre.mem@[a] == m[a]);
                                    assert(m[a].0.deep_view() != kv);
                                }
                            }
                            assert forall|j: int| 0 <= j < self.index@.len() implies
                                self.model@.dom().contains(
                                (#[trigger] self.index@[j]).0.deep_view()) && region_bytes(
                                self.store.contents(),
                                self.index@[j].1,
                            ) == ValueType::spec_encoded(
                                self.model@[self.index@[j].0.deep_view()],
                            ) by {
                                assert(self.index@[j].0.deep_view() != kv);
                            }
                            assert forall|kv2: KeyType::V| self.model@.dom().contains(kv2)
                                implies exists|t: int|
                                0 <= t < m.len() && (#[trigger] m[t]).0.deep_view() == kv2 by {
                                if kv2 == kv {
                                    assert(m[n].0.deep_view() == kv2);
                                } else {
                                    let t0 = choose|t: int|
                                        0 <= t < pre.mem@.len() && (#[trigger] pre.mem@[t]).0.deep_view()
                                            == kv2;
                                    assert(m[t0].0.deep_view() == kv2);
                                }
                            }
                        }
                        Ok(())
                    },
                }
            } else {
                match self.flush_mem_to_disk() {
                    Ok(()) => {},
                    Err(e) => {
                        return Err(e);
                    },
                }
                self.insert_disk_entry(key, value)
            }
        }
    }

    /// Changes the in-memory threshold.  Lowering it below the entry count
    /// of a memory-mode store flushes the entries to disk at once.
    pub fn set_max_mem_entries(&mut self, max_mem_entries: usize) -> (r: Result<(), StoreError>)
        requires
            old(self).wf(),
        ensures
            final (self).wf(),
            final (self)@ == old(self)@,
            final (self).threshold() == max_mem_entries,
            old(self).on_disk() ==> final (self).on_disk(),
            r is Ok ==> (final (self).on_disk() <==> (old(self).on_disk() || old(
                self,
            )@.dom().len() > max_mem_entries)),
            r is Err ==> !final (self).on_disk(),
            old(self).on_disk() || old(self)@.dom().len() <= max_mem_entries ==> r is Ok,
    {
        proof {
            assert(old(self).wf());
        }
        self.max_mem_entries = max_mem_entries;
        proof {
            assert(self.storage_wf());
            if self.using_disk {
                assert forall|kv: KeyType::V| self.model@.dom().contains(kv) implies exists|
                    i: int,
                |
                    0 <= i < self.index@.len() && (#[trigger] self.index@[i]).0.deep_view() == kv
                    by {
                    assert(old(self).model@.dom().contains(kv));
                    let i = choose|i: int|
                        0 <= i < old(self).index@.len() && (#[trigger] old(self).index@[i]).0.deep_view()
                            == kv;
                    assert(self.index@[i].0.deep_view() == kv);
                }
            } else {
                assert forall|kv: KeyType::V| self.model@.dom().contains(kv) implies exists|
                    i: int,
                |
                    0 <= i < self.mem@.len() && (#[trigger] self.mem@[i]).0.deep_view() == kv by {
                    assert(old(self).model@.dom().contains(kv));
                    let i = choose|i: int|
                        0 <= i < old(self).mem@.len() && (#[trigger] old(self).mem@[i]).0.deep_view()
                            == kv;
                    assert(self.mem@[i].0.deep_view() == kv);
                }
            }
            assert(self.wf());
        }
        if !self.using_disk {
            proof {
                lemma_dom_size::<KeyType, ValueType>(self.mem@, self.model@.dom());
            }
            if self.mem.len() > max_mem_entries {
                return self.flush_mem_to_disk();
            }
        }
        Ok(())
    }

    /// Removes a key and returns its previous value, releasing whatever
    /// storage it held.  A memory-mode store answers exactly; in disk mode
    /// a read failure of the backing file answers `None` and leaves the
    /// entry in place.
    /// Removes a key without reading its value back; the freed disk
    /// region goes to the free list.  Unlike `remove` this touches no
    /// file bytes and therefore cannot fail.
    pub(crate) fn discard(&mut self, key: &KeyType)
        requires
            old(self).wf(),
        ensures
            final (self).wf(),
            final (self)@ == old(self)@.remove(key.deep_view()),
            final (self).on_disk() == old(self).on_disk(),
            final (self).threshold() == old(self).threshold(),
    {
        let ghost kv = key.deep_view();
        if !self.using_disk {
            match self.find_mem(key) {
                Some(i) => {
                    self.release_storage(key);
                    proof {
                        assert(self.wf());
                    }
                    let ghost pre = *self;
                    let _ = self.mem.remove(i);
                    self.model = Ghost(self.model@.remove(kv));
                    proof {
                        self.lemma_mem_entry_removed(pre, i as int, kv);
                        assert(self@ =~= old(self)@.remove(kv));
                    }
                },
                None => {
                    proof {
                        assert(!self.model@.dom().contains(kv)) by {
                            if self.model@.dom().contains(kv) {
                                let t = choose|t: int|
                                    0 <= t < self.mem@.len() && (#[trigger] self.mem@[t]).0.deep_view()
                                        == kv;
                            }
                        }
                        assert(self@ =~= old(self)@.remove(kv));
                    }
                },
            }
        } else {
            match self.find_idx(key) {
                Some(_) => {
                    self.release_storage(key);
                    let ghost mid2 = *self;
                    self.model = Ghost(self.model@.remove(kv));
                    proof {
                        self.lemma_disk_entry_removed(mid2, kv);
                        assert(self@ =~= old(self)@.remove(kv));
                    }
                },
                None => {
                    proof {
                        assert(!self.model@.dom().contains(kv)) by {
                            if self.model@.dom().contains(kv) {
                                let t = choose|t: int|
                                    0 <= t < self.index@.len() && (#[trigger] self.index@[t]).0.deep_view()
                                        == kv;
                            }
                        }
                        assert(self@ =~= old(self)@.remove(kv));
                    }
                },
            }
        }
    }

    /// After dropping the memory entry at `i` and the key from the model,
    /// the whole invariant holds again.
    proof fn lemma_mem_entry_removed(&self, pre: Self, i: int, kv: KeyType::V)
        requires
            pre.wf_except(kv),
            !pre.using_disk,
            !self.using_disk,
            0 <= i < pre.mem@.len(),
            pre.mem@[i].0.deep_view() == kv,
            forall|j: int|
                0 <= j < pre.index@.len() ==> (#[trigger] pre.index@[j]).0.deep_view() != kv,
            self.mem@ == pre.mem@.remove(i),
            self.index@ == pre.index@,
            self.free == pre.free,
            self.store == pre.store,
            self.max_mem_entries == pre.max_mem_entries,
            self.model@ == pre.model@.remove(kv),
        ensures
            self.wf(),
    {
        let m = self.mem@;
        let m0 = pre.mem@;
        assert forall|a: int, b: int| 0 <= a < b < m.len() implies (#[trigger] m[a]).0.deep_view()
            != (#[trigger] m[b]).0.deep_view() by {
            let a0: int = if a < i {
                a
            } else {
                a + 1
            };
            let b0: int = if b < i {
                b
            } else {
                b + 1
            };
            assert(m[a] == m0[a0] && m[b] == m0[b0]);
        }
        assert forall|j: int| 0 <= j < m.len() implies self.model@.dom().contains(
            (#[trigger] m[j]).0.deep_view(),
        ) && self.model@[m[j].0.deep_view()] == m[j].1.deep_view() by {
            let j0: int = if j < i {
                j
            } else {
                j + 1
            };
            assert(m[j] == m0[j0]);
            assert(m0[j0].0.deep_view() != kv);
        }
        assert forall|kv2: KeyType::V| self.model@.dom().contains(kv2) implies exists|t: int|
            0 <= t < m.len() && (#[trigger] m[t]).0.deep_view() == kv2 by {
            let t0 = choose|t: int| 0 <= t < m0.len() && (#[trigger] m0[t]).0.deep_view() == kv2;
            assert(t0 != i);
            if t0 < i {
                assert(m[t0] == m0[t0]);
            } else {
                assert(m[t0 - 1] == m0[t0]);
            }
        }
        assert forall|j: int| 0 <= j < self.index@.len() implies self.model@.dom().contains(
            (#[trigger] self.index@[j]).0.deep_view(),
        ) && region_bytes(self.store.contents(), self.index@[j].1) == ValueType::spec_encoded(
            self.model@[self.index@[j].0.deep_view()],
        ) by {
            assert(self.index@[j].0.deep_view() != kv);
        }
    }

    /// After dropping a key from both the index (already released) and the
    /// model, the disk-mode invariant holds again.
    proof fn lemma_disk_entry_removed(&self, mid2: Self, kv: KeyType::V)
        requires
            mid2.wf_except(kv),
            mid2.using_disk,
            self.using_disk,
            forall|j: int|
                0 <= j < mid2.index@.len() ==> (#[trigger] mid2.index@[j]).0.deep_view() != kv,
            self.index@ == mid2.index@,
            self.mem@ == mid2.mem@,
            self.free == mid2.free,
            self.store == mid2.store,
            self.max_mem_entries == mid2.max_mem_entries,
            self.model@ == mid2.model@.remove(kv),
        ensures
            self.wf(),
    {
        assert forall|j: int| 0 <= j < self.index@.len() implies self.model@.dom().contains(
            (#[trigger] self.index@[j]).0.deep_view(),
        ) && region_bytes(self.store.contents(), self.index@[j].1) == ValueType::spec_encoded(
            self.model@[self.index@[j].0.deep_view()],
        ) by {
            assert(self.index@[j].0.deep_view() != kv);
            assert(self.model@[self.index@[j].0.deep_view()]
                == mid2.model@[self.index@[j].0.deep_view()]);
        }
        assert forall|kv2: KeyType::V| self.model@.dom().contains(kv2) implies exists|t: int|
            0 <= t < self.index@.len() && (#[trigger] self.index@[t]).0.deep_view() == kv2 by {
            assert(mid2.model@.dom().contains(kv2) && kv2 != kv);
        }
    }

    pub fn remove(&mut self, key: &KeyType) -> (r: Option<ValueType>)
        requires
            old(self).wf(),
        ensures
            final (self).wf(),
            final (self).on_disk() == old(self).on_disk(),
            final (self).threshold() == old(self).threshold(),
            match r {
                Some(v) => old(self)@.contains_key(key.deep_view()) && v.deep_view() == old(
                    self,
                )@[key.deep_view()] && final (self)@ == old(self)@.remove(key.deep_view()),
                None => final (self)@ == old(self)@ && (old(self).on_disk() || !old(
                    self,
                )@.contains_key(key.deep_view())),
            },
    {
        let ghost kv = key.deep_view();
        if !self.using_disk {
            match self.find_mem(key) {
                Some(i) => {
                    self.release_storage(key);
                    proof {
                        assert(self.wf());
                    }
                    let ghost pre = *self;
                    let entry = self.mem.remove(i);
                    self.model = Ghost(self.model@.remove(kv));
                    proof {
                        let m = self.mem@;
                        let m0 = pre.mem@;
                        assert forall|a: int, b: int| 0 <= a < b < m.len() implies (
                        #[trigger] m[a]).0.deep_view() != (#[trigger] m[b]).0.deep_view() by {
                            let a0: int = if a < i {
                                a
                            } else {
                                a + 1
                            };
                            let b0: int = if b < i {
                                b
                            } else {
                                b + 1
                            };
                            assert(m[a] == m0[a0] && m[b] == m0[b0]);
                        }
                        assert forall|j: int| 0 <= j < m.len() implies self.model@.dom().contains(
                            (#[trigger] m[j]).0.deep_view(),
                        ) && self.model@[m[j].0.deep_view()] == m[j].1.deep_view() by {
                            let j0: int = if j < i {
                                j
                            } else {
                                j + 1
                            };
                            assert(m[j] == m0[j0]);
                            assert(m0[j0].0.deep_view() != kv);
                        }
                        assert forall|kv2: KeyType::V| self.model@.dom().contains(kv2) implies
                            exists|t: int|
                            0 <= t < m.len() && (#[trigger] m[t]).0.deep_view() == kv2 by {
                            let t0 = choose|t: int|
                                0 <= t < m0.len() && (#[trigger] m0[t]).0.deep_view() == kv2;
                            assert(t0 != i);
                            if t0 < i {
                                assert(m[t0] == m0[t0]);
                            } else {
                                assert(m[t0 - 1] == m0[t0]);
                            }
                        }
                        assert forall|j: int| 0 <= j < self.index@.len() implies
                            self.model@.dom().contains(
                            (#[trigger] self.index@[j]).0.deep_view()) && region_bytes(
                            self.store.contents(),
                            self.index@[j].1,
                        ) == ValueType::spec_encoded(
                            self.model@[self.index@[j].0.deep_view()],
                        ) by {
                            assert(self.index@[j].0.deep_view() != kv);
                        }
                        assert(self@ =~= old(self)@.remove(kv));
                    }
                    Some(entry.1)
                },
                None => None,
            }
        } else {
            match self.find_idx(key) {
                Some(i) => {
                    let pl = self.index[i].1;
                    match self.store.read_at(pl.position, pl.length as usize) {
                        Ok(bytes) => {
                            proof {
                                assert(bytes@ =~= region_bytes(
                                    self.store.contents(),
                                    self.index@[i as int].1,
                                ));
                            }
                            match ValueType::decode(bytes.as_slice()) {
                                Some(v) => {
                                    self.release_storage(key);
                                    let ghost mid2 = *self;
                                    self.model = Ghost(self.model@.remove(kv));
                                    proof {
                                        assert(mid2.wf_except(kv));
                                        assert(self.index@ == mid2.index@ && self.store
                                            == mid2.store && self.free == mid2.free && self.mem@
                                            == mid2.mem@);
                                        assert forall|j: int| 0 <= j < self.index@.len() implies
                                            self.model@.dom().contains(
                                            (#[trigger] self.index@[j]).0.deep_view())
                                            && region_bytes(
                                            self.store.contents(),
                                            self.index@[j].1,
                                        ) == ValueType::spec_encoded(
                                            self.model@[self.index@[j].0.deep_view()],
                                        ) by {
                                            let kvj = self.index@[j].0.deep_view();
                                            assert(mid2.index@[j].0.deep_view() == kvj);
                                            assert(kvj != kv);
                                            assert(mid2.model@.dom().contains(kvj));
                                            assert(region_bytes(
                                                mid2.store.contents(),
                                                mid2.index@[j].1,
                                            ) == ValueType::spec_encoded(mid2.model@[kvj]));
                                            assert(self.model@[kvj] == mid2.model@[kvj]);
                                        }
                                        assert forall|kv2: KeyType::V|
                                            self.model@.dom().contains(kv2) implies exists|t: int|
                                            0 <= t < self.index@.len() && (#[trigger] self.index@[t]).0.deep_view()
                                                == kv2 by {
                                            assert(mid2.model@.dom().contains(kv2) && kv2 != kv);
                                        }
                                        assert(self.wf());
                                        assert(self@ =~= old(self)@.remove(kv));
                                    }
                                    Some(v)
                                },
                                None => {
                                    proof {
                                        assert(false);
                                    }
                                    None
                                },
                            }
                        },
                        Err(_) => None,
                    }
                },
                None => None,
            }
        }
    }

    /// Exchanges the entries of two keys without touching any stored
    /// bytes: in disk mode only the two index records swap places.
    /// Swapping a key with itself, or two absent keys, changes nothing; a
    /// single present key moves its entry to the other key.
    pub fn swap(&mut self, key1: &KeyType, key2: &KeyType)
        requires
            old(self).wf(),
        ensures
            final (self).wf(),
            final (self).on_disk() == old(self).on_disk(),
            final (self).threshold() == old(self).threshold(),
            final (self)@ == map_swap(old(self)@, key1.deep_view(), key2.deep_view()),
    {
        let ghost kv1 = key1.deep_view();
        let ghost kv2 = key2.deep_view();
        if key1.key_eq(key2) {
            proof {
                if self.model@.contains_key(kv1) {
                    assert(map_swap(self.model@, kv1, kv2) =~= self.model@);
                }
            }
            return ;
        }
        if !self.using_disk {
            self.swap_mem(key1, key2);
        } else {
            self.swap_disk(key1, key2);
        }
    }

    /// Memory-mode half of `swap`: exchanges the two keys' in-memory
    /// entries, after dropping any stale disk copies of either key.
    #[verifier::rlimit(100)]
    fn swap_mem(&mut self, key1: &KeyType, key2: &KeyType)
        requires
            old(self).wf(),
            !old(self).using_disk,
            key1.deep_view() != key2.deep_view(),
        ensures
            final (self).wf(),
            final (self).on_disk() == old(self).on_disk(),
            final (self).threshold() == old(self).threshold(),
            final (self)@ == map_swap(old(self)@, key1.deep_view(), key2.deep_view()),
    {
        let ghost kv1 = key1.deep_view();
        let ghost kv2 = key2.deep_view();
        let ghost m0 = self.model@;
        // drop any stale disk copies of the two keys first, so the
        // record index never contradicts the swapped values
        self.release_storage(key1);
        proof {
            assert(self.wf());
        }
        let ghost mid1 = *self;
        self.release_storage(key2);
        proof {
            assert(self.wf());
            assert forall|j: int| 0 <= j < self.index@.len() implies (#[trigger] self.index@[j]).0.deep_view()
            != kv1 && self.index@[j].0.deep_view() != kv2 by {
                if self.index@ != mid1.index@ {
                    let a = choose|a: int|
                    0 <= a < mid1.index@.len() && (#[trigger] mid1.index@[a]).0.deep_view()
                    == kv2 && self.index@ == mid1.index@.remove(a);
                    if j < a {
                        assert(self.index@[j] == mid1.index@[j]);
                    } else {
                        assert(self.index@[j] == mid1.index@[j + 1]);
                    }
                }
            }
        }
        let f1 = self.find_mem(key1);
        let f2 = self.find_mem(key2);
        match (f1, f2) {
            (Some(i1), Some(i2)) => {
                let ghost pre = *self;
                let k1 = self.mem[i1].0.key_dup();
                let k2 = self.mem[i2].0.key_dup();
                let v1 = self.mem[i1].1.val_dup();
                let v2 = self.mem[i2].1.val_dup();
                self.mem[i1] = (k1, v2);
                self.mem[i2] = (k2, v1);
                self.model = Ghost(m0.insert(kv1, m0[kv2]).insert(kv2, m0[kv1]));
                proof {
                    assert(i1 != i2);
                    let m = self.mem@;
                    assert forall|a: int, b: int| 0 <= a < b < m.len() implies (
                        #[trigger] m[a]).0.deep_view() != (#[trigger] m[b]).0.deep_view() by {
                        assert(m[a].0.deep_view() == pre.mem@[a].0.deep_view());
                        assert(m[b].0.deep_view() == pre.mem@[b].0.deep_view());
                    }
                    assert forall|j: int| 0 <= j < m.len() implies self.model@.dom().contains(
                        (#[trigger] m[j]).0.deep_view(),
                    ) && self.model@[m[j].0.deep_view()] == m[j].1.deep_view() by {
                        if j != i1 && j != i2 {
                            assert(m[j] == pre.mem@[j]);
                            assert(m[j].0.deep_view() != kv1 && m[j].0.deep_view() != kv2);
                        }
                    }
                    assert forall|kv3: KeyType::V| self.model@.dom().contains(kv3) implies
                    exists|t: int|
                    0 <= t < m.len() && (#[trigger] m[t]).0.deep_view() == kv3 by {
                        let t0 = choose|t: int|
                        0 <= t < pre.mem@.len() && (#[trigger] pre.mem@[t]).0.deep_view()
                        == kv3;
                        assert(m[t0].0.deep_view() == kv3);
                    }
                    assert forall|j: int| 0 <= j < self.index@.len() implies
                    self.model@.dom().contains(
                        (#[trigger] self.index@[j]).0.deep_view()) && region_bytes(
                        self.store.contents(),
                        self.index@[j].1,
                    ) == ValueType::spec_encoded(
                        self.model@[self.index@[j].0.deep_view()],
                    ) by {
                        let kvj = self.index@[j].0.deep_view();
                        assert(self.index@[j] == pre.index@[j]);
                        assert(kvj != kv1 && kvj != kv2);
                    }
                    assert(self@ =~= map_swap(m0, kv1, kv2));
                }
            },
            (Some(i1), None) => {
                let ghost pre1 = *self;
                let v1 = self.mem[i1].1.val_dup();
                self.mem[i1] = (key2.key_dup(), v1);
                self.model = Ghost(m0.remove(kv1).insert(kv2, m0[kv1]));
                proof {
                    self.lemma_mem_rekey(pre1, i1 as int, kv1, kv2);
                    assert(self@ =~= map_swap(m0, kv1, kv2));
                }
            },
            (None, Some(i2)) => {
                let ghost pre1 = *self;
                let v2 = self.mem[i2].1.val_dup();
                self.mem[i2] = (key1.key_dup(), v2);
                self.model = Ghost(m0.remove(kv2).insert(kv1, m0[kv2]));
                proof {
                    self.lemma_mem_rekey(pre1, i2 as int, kv2, kv1);
                    assert(self@ =~= map_swap(m0, kv1, kv2));
                }
            },
            (None, None) => {
                proof {
                    assert(map_swap(m0, kv1, kv2) == m0);
                }
            },
        }
    }

    /// Disk-mode half of `swap`: exchanges the two keys' index records.
    #[verifier::rlimit(100)]
    fn swap_disk(&mut self, key1: &KeyType, key2: &KeyType)
        requires
            old(self).wf(),
            old(self).using_disk,
            key1.deep_view() != key2.deep_view(),
        ensures
            final (self).wf(),
            final (self).on_disk() == old(self).on_disk(),
            final (self).threshold() == old(self).threshold(),
            final (self)@ == map_swap(old(self)@, key1.deep_view(), key2.deep_view()),
    {
        let ghost kv1 = key1.deep_view();
        let ghost kv2 = key2.deep_view();
        let ghost m0 = self.model@;
        let f1 = self.find_idx(key1);
        let f2 = self.find_idx(key2);
        match (f1, f2) {
            (Some(i1), Some(i2)) => {
                let ghost pre = *self;
                let k1 = self.index[i1].0.key_dup();
                let k2 = self.index[i2].0.key_dup();
                let pl1 = self.index[i1].1;
                let pl2 = self.index[i2].1;
                self.index[i1] = (k1, pl2);
                self.index[i2] = (k2, pl1);
                self.model = Ghost(m0.insert(kv1, m0[kv2]).insert(kv2, m0[kv1]));
                proof {
                    assert(i1 != i2);
                    let idx = self.index@;
                    let idx0 = pre.index@;
                    assert forall|a: int, b: int| 0 <= a < b < idx.len() implies (
                        #[trigger] idx[a]).0.deep_view() != (#[trigger] idx[b]).0.deep_view() by {
                        assert(idx[a].0.deep_view() == idx0[a].0.deep_view());
                        assert(idx[b].0.deep_view() == idx0[b].0.deep_view());
                    }
                    assert forall|a: int, b: int|
                    0 <= a < idx.len() && 0 <= b < idx.len() && a != b implies
                    regions_disjoint((#[trigger] idx[a]).1, (#[trigger] idx[b]).1) by {
                        let a0: int = if a == i1 {
                            i2 as int
                        } else if a == i2 {
                            i1 as int
                        } else {
                            a
                        };
                        let b0: int = if b == i1 {
                            i2 as int
                        } else if b == i2 {
                            i1 as int
                        } else {
                            b
                        };
                        assert(idx[a].1 == idx0[a0].1 && idx[b].1 == idx0[b0].1);
                        assert(regions_disjoint(idx0[a0].1, idx0[b0].1));
                    }
                    assert forall|j: int, b: int|
                    0 <= j < idx.len() && #[trigger] in_region(idx[j].1, b) implies
                    !covers(self.free.extents(), b) by {
                        let j0: int = if j == i1 {
                            i2 as int
                        } else if j == i2 {
                            i1 as int
                        } else {
                            j
                        };
                        assert(idx[j].1 == idx0[j0].1);
                        assert(in_region(idx0[j0].1, b));
                    }
                    assert forall|j: int| 0 <= j < idx.len() implies region_ok(
                        (#[trigger] idx[j]).1,
                        self.store.contents(),
                    ) by {
                        let j0: int = if j == i1 {
                            i2 as int
                        } else if j == i2 {
                            i1 as int
                        } else {
                            j
                        };
                        assert(idx[j].1 == idx0[j0].1);
                        assert(region_ok(idx0[j0].1, self.store.contents()));
                    }
                    assert forall|j: int| 0 <= j < idx.len() implies self.model@.dom().contains(
                        (#[trigger] idx[j]).0.deep_view(),
                    ) && region_bytes(self.store.contents(), idx[j].1)
                    == ValueType::spec_encoded(
                        self.model@[idx[j].0.deep_view()],
                    ) by {
                        let kvj = idx[j].0.deep_view();
                        if j == i1 {
                            assert(idx0[i2 as int].0.deep_view() == kv2);
                            assert(region_bytes(self.store.contents(), idx0[i2 as int].1)
                                == ValueType::spec_encoded(m0[kv2]));
                        } else if j == i2 {
                            assert(idx0[i1 as int].0.deep_view() == kv1);
                            assert(region_bytes(self.store.contents(), idx0[i1 as int].1)
                                == ValueType::spec_encoded(m0[kv1]));
                        } else {
                            assert(idx[j] == idx0[j]);
                            assert(kvj != kv1 && kvj != kv2);
                        }
                    }
                    assert forall|kv3: KeyType::V| self.model@.dom().contains(kv3) implies
                    exists|t: int|
                    0 <= t < idx.len() && (#[trigger] idx[t]).0.deep_view() == kv3 by {
                        let t0 = choose|t: int|
                        0 <= t < idx0.len() && (#[trigger] idx0[t]).0.deep_view() == kv3;
                        assert(idx[t0].0.deep_view() == kv3);
                    }
                    assert(self@ =~= map_swap(m0, kv1, kv2));
                }
            },
            (Some(i1), None) => {
                let ghost pre = *self;
                let pl1 = self.index[i1].1;
                self.index[i1] = (key2.key_dup(), pl1);
                self.model = Ghost(m0.remove(kv1).insert(kv2, m0[kv1]));
                proof {
                    self.lemma_idx_rekey(pre, i1 as int, kv1, kv2);
                    assert(self@ =~= map_swap(m0, kv1, kv2));
                }
            },
            (None, Some(i2)) => {
                let ghost pre = *self;
                let pl2 = self.index[i2].1;
                self.index[i2] = (key1.key_dup(), pl2);
                self.model = Ghost(m0.remove(kv2).insert(kv1, m0[kv2]));
                proof {
                    self.lemma_idx_rekey(pre, i2 as int, kv2, kv1);
                    assert(self@ =~= map_swap(m0, kv1, kv2));
                }
            },
            (None, None) => {
                proof {
                    assert(map_swap(m0, kv1, kv2) == m0);
                }
            },
        }
    }

    /// Moving the entry at `i` from key `kva` to the absent key `kvb`
    /// preserves the memory-mode invariant.
    proof fn lemma_mem_rekey(&self, pre: Self, i: int, kva: KeyType::V, kvb: KeyType::V)
        requires
            pre.wf(),
            !pre.using_disk,
            !self.using_disk,
            0 <= i < pre.mem@.len(),
            pre.mem@[i].0.deep_view() == kva,
            forall|j: int| 0 <= j < pre.mem@.len() ==> (#[trigger] pre.mem@[j]).0.deep_view() != kvb,
            forall|j: int|
                0 <= j < pre.index@.len() ==> (#[trigger] pre.index@[j]).0.deep_view() != kva,
            self.mem@ == pre.mem@.update(
                i,
                (self.mem@[i].0, self.mem@[i].1),
            ),
            self.mem@[i].0.deep_view() == kvb,
            self.mem@[i].1.deep_view() == pre.mem@[i].1.deep_view(),
            self.index@ == pre.index@,
            self.free == pre.free,
            self.store == pre.store,
            self.max_mem_entries == pre.max_mem_entries,
            self.model@ == pre.model@.remove(kva).insert(kvb, pre.model@[kva]),
        ensures
            self.wf(),
    {
        let m = self.mem@;
        let m0 = pre.mem@;
        assert(pre.model@.contains_key(kva));
        assert(pre.model@[kva] == m0[i].1.deep_view());
        assert forall|a: int, b: int| 0 <= a < b < m.len() implies (#[trigger] m[a]).0.deep_view()
        != (#[trigger] m[b]).0.deep_view() by {
            if a != i {
                assert(m[a] == m0[a]);
                assert(m0[a].0.deep_view() != kvb);
            }
            if b != i {
                assert(m[b] == m0[b]);
                assert(m0[b].0.deep_view() != kvb);
            }
        }
        assert forall|j: int| 0 <= j < m.len() implies self.model@.dom().contains(
            (#[trigger] m[j]).0.deep_view(),
        ) && self.model@[m[j].0.deep_view()] == m[j].1.deep_view() by {
            if j != i {
                assert(m[j] == m0[j]);
                assert(m0[j].0.deep_view() != kva || j == i);
                assert(m0[j].0.deep_view() != kvb);
            }
        }
        assert forall|kv3: KeyType::V| self.model@.dom().contains(kv3) implies exists|t: int|
        0 <= t < m.len() && (#[trigger] m[t]).0.deep_view() == kv3 by {
            if kv3 == kvb {
                assert(m[i].0.deep_view() == kv3);
            } else {
                let t0 = choose|t: int|
                0 <= t < m0.len() && (#[trigger] m0[t]).0.deep_view() == kv3;
                assert(t0 != i);
                assert(m[t0].0.deep_view() == kv3);
            }
        }
        assert forall|j: int| 0 <= j < self.index@.len() implies self.model@.dom().contains(
            (#[trigger] self.index@[j]).0.deep_view(),
        ) && region_bytes(self.store.contents(), self.index@[j].1) == ValueType::spec_encoded(
            self.model@[self.index@[j].0.deep_view()],
        ) by {
            let kvj = self.index@[j].0.deep_view();
            assert(kvj != kva);
            let t0 = choose|t: int|
            0 <= t < m0.len() && (#[trigger] m0[t]).0.deep_view() == kvj;
            assert(t0 != i);
            assert(m0[t0].0.deep_view() != kvb);
            assert(kvj != kvb);
        }
    }

    /// Moving the index entry at `i` from key `kva` to the absent key
    /// `kvb` preserves the disk-mode invariant.
    proof fn lemma_idx_rekey(&self, pre: Self, i: int, kva: KeyType::V, kvb: KeyType::V)
        requires
            pre.wf(),
            pre.using_disk,
            self.using_disk,
            0 <= i < pre.index@.len(),
            pre.index@[i].0.deep_view() == kva,
            forall|j: int|
                0 <= j < pre.index@.len() ==> (#[trigger] pre.index@[j]).0.deep_view() != kvb,
            self.index@ == pre.index@.update(i, (self.index@[i].0, pre.index@[i].1)),
            self.index@[i].0.deep_view() == kvb,
            self.mem@ == pre.mem@,
            self.free == pre.free,
            self.store == pre.store,
            self.max_mem_entries == pre.max_mem_entries,
            self.model@ == pre.model@.remove(kva).insert(kvb, pre.model@[kva]),
        ensures
            self.wf(),
    {
        let idx = self.index@;
        let idx0 = pre.index@;
        assert(pre.model@.contains_key(kva));
        assert forall|a: int, b: int| 0 <= a < b < idx.len() implies (
        #[trigger] idx[a]).0.deep_view() != (#[trigger] idx[b]).0.deep_view() by {
            if a != i {
                assert(idx[a] == idx0[a]);
                assert(idx0[a].0.deep_view() != kvb);
            }
            if b != i {
                assert(idx[b] == idx0[b]);
                assert(idx0[b].0.deep_view() != kvb);
            }
        }
        assert forall|a: int, b: int| 0 <= a < idx.len() && 0 <= b < idx.len() && a != b implies
            regions_disjoint((#[trigger] idx[a]).1, (#[trigger] idx[b]).1) by {
            assert(idx[a].1 == idx0[a].1 && idx[b].1 == idx0[b].1);
            assert(regions_disjoint(idx0[a].1, idx0[b].1));
        }
        assert forall|j: int, b: int| 0 <= j < idx.len() && #[trigger] in_region(idx[j].1, b)
            implies !covers(self.free.extents(), b) by {
            assert(idx[j].1 == idx0[j].1);
            assert(in_region(idx0[j].1, b));
        }
        assert forall|j: int| 0 <= j < idx.len() implies region_ok(
            (#[trigger] idx[j]).1,
            self.store.contents(),
        ) by {
            assert(idx[j].1 == idx0[j].1);
            assert(region_ok(idx0[j].1, self.store.contents()));
        }
        assert forall|j: int| 0 <= j < idx.len() implies self.model@.dom().contains(
            (#[trigger] idx[j]).0.deep_view(),
        ) && region_bytes(self.store.contents(), idx[j].1) == ValueType::spec_encoded(
            self.model@[idx[j].0.deep_view()],
        ) by {
            if j == i {
                assert(region_bytes(self.store.contents(), idx0[i].1)
                    == ValueType::spec_encoded(pre.model@[kva]));
            } else {
                assert(idx[j] == idx0[j]);
                assert(idx0[j].0.deep_view() != kva || j == i) by {
                    if idx0[j].0.deep_view() == kva {
                        assert(idx0[i].0.deep_view() == kva);
                    }
                }
                assert(idx0[j].0.deep_view() != kvb);
            }
        }
        assert forall|kv3: KeyType::V| self.model@.dom().contains(kv3) implies exists|t: int|
            0 <= t < idx.len() && (#[trigger] idx[t]).0.deep_view() == kv3 by {
            if kv3 == kvb {
                assert(idx[i].0.deep_view() == kv3);
            } else {
                let t0 = choose|t: int|
                    0 <= t < idx0.len() && (#[trigger] idx0[t]).0.deep_view() == kv3;
                assert(t0 != i);
                assert(idx[t0].0.deep_view() == kv3);
            }
        }
    }

    /// Empties the store and truncates the backing file; the mode and the
    /// threshold are kept, and the free list starts over.
    pub fn clear(&mut self) -> (r: Result<(), StoreError>)
        requires
            old(self).wf(),
        ensures
            final (self).wf(),
            final (self)@ == Map::<KeyType::V, ValueType::V>::empty(),
            final (self).on_disk() == old(self).on_disk(),
            final (self).threshold() == old(self).threshold(),
    {
        self.mem.clear();
        self.index.clear();
        self.free = DiskFree::new();
        self.model = Ghost(Map::empty());
        let r = self.store.truncate_to_zero();
        proof {
            assert(self.wf());
        }
        match r {
            Ok(()) => Ok(()),
            Err(_) => Err(StoreError::Io),
        }
    }

    /// The keys currently present, without duplicates, in unspecified
    /// order.
    pub fn keys(&self) -> (r: Vec<KeyType>)
        requires
            self.wf(),
        ensures
            r@.len() == self@.dom().len(),
            forall|i: int|
                0 <= i < r@.len() ==> self@.contains_key((#[trigger] r@[i]).deep_view()),
            forall|kv: KeyType::V|
                self@.contains_key(kv) ==> exists|i: int|
                    0 <= i < r@.len() && (#[trigger] r@[i]).deep_view() == kv,
            forall|i: int, j: int|
                0 <= i < j < r@.len() ==> (#[trigger] r@[i]).deep_view() != (
                #[trigger] r@[j]).deep_view(),
    {
        let mut out: Vec<KeyType> = Vec::new();
        if self.using_disk {
            let n = self.index.len();
            for i in 0..n
                invariant
                    self.wf(),
                    self.using_disk,
                    n == self.index@.len(),
                    out@.len() == i,
                    forall|j: int|
                        0 <= j < i ==> (#[trigger] out@[j]).deep_view()
                            == self.index@[j].0.deep_view(),
            {
                out.push(self.index[i].0.key_dup());
            }
            proof {
                lemma_dom_size::<KeyType, PositionLength>(self.index@, self.model@.dom());
                assert forall|kv: KeyType::V| self@.contains_key(kv) implies exists|i: int|
                    0 <= i < out@.len() && (#[trigger] out@[i]).deep_view() == kv by {
                    let t0 = choose|t: int|
                        0 <= t < self.index@.len() && (#[trigger] self.index@[t]).0.deep_view()
                            == kv;
                    assert(out@[t0].deep_view() == kv);
                }
            }
        } else {
            let n = self.mem.len();
            for i in 0..n
                invariant
                    self.wf(),
                    !self.using_disk,
                    n == self.mem@.len(),
                    out@.len() == i,
                    forall|j: int|
                        0 <= j < i ==> (#[trigger] out@[j]).deep_view()
                            == self.mem@[j].0.deep_view(),
            {
                out.push(self.mem[i].0.key_dup());
            }
            proof {
                lemma_dom_size::<KeyType, ValueType>(self.mem@, self.model@.dom());
                assert forall|kv: KeyType::V| self@.contains_key(kv) implies exists|i: int|
                    0 <= i < out@.len() && (#[trigger] out@[i]).deep_view() == kv by {
                    let t0 = choose|t: int|
                        0 <= t < self.mem@.len() && (#[trigger] self.mem@[t]).0.deep_view() == kv;
                    assert(out@[t0].deep_view() == kv);
                }
            }
        }
        out
    }

    /// Keeps only the entries the predicate approves, removing the rest.
    /// Every removed key was rejected by the predicate on its stored
    /// value; in memory mode every surviving key was approved.  (In disk
    /// mode an entry whose record cannot be read back stays untouched.)
    pub fn retain<F: Fn(&KeyType, &ValueType) -> bool>(&mut self, f: F)
        requires
            old(self).wf(),
            forall|k: KeyType, v: ValueType| #[trigger] f.requires((&k, &v)),
        ensures
            final (self).wf(),
            final (self).on_disk() == old(self).on_disk(),
            final (self).threshold() == old(self).threshold(),
            forall|kv: KeyType::V|
                #[trigger] final (self)@.contains_key(kv) ==> old(self)@.contains_key(kv)
                    && final (self)@[kv] == old(self)@[kv],
            forall|kv: KeyType::V|
                old(self)@.contains_key(kv) && !(#[trigger] final (self)@.contains_key(kv))
                    ==> exists|k: KeyType, v: ValueType|
                    k.deep_view() == kv && v.deep_view() == old(self)@[kv] && (#[trigger] f.ensures(
                        (&k, &v),
                        false,
                    )),
            !old(self).on_disk() ==> forall|kv: KeyType::V|
                #[trigger] final (self)@.contains_key(kv) ==> exists|k: KeyType, v: ValueType|
                    k.deep_view() == kv && v.deep_view() == old(self)@[kv] && (#[trigger] f.ensures(
                        (&k, &v),
                        true,
                    )),
    {
        let ks = self.keys();
        let n = ks.len();
        for i in 0..n
            invariant
                self.wf(),
                self.on_disk() == old(self).on_disk(),
                self.threshold() == old(self).threshold(),
                n == ks@.len(),
                forall|j: int|
                    0 <= j < n ==> old(self)@.contains_key((#[trigger] ks@[j]).deep_view()),
                forall|a: int, b: int|
                    0 <= a < b < n ==> (#[trigger] ks@[a]).deep_view() != (
                    #[trigger] ks@[b]).deep_view(),
                forall|kv: KeyType::V|
                    old(self)@.contains_key(kv) ==> exists|j: int|
                        0 <= j < n && (#[trigger] ks@[j]).deep_view() == kv,
                forall|k2: KeyType, v2: ValueType| #[trigger] f.requires((&k2, &v2)),
                forall|kv: KeyType::V|
                    #[trigger] self@.contains_key(kv) ==> old(self)@.contains_key(kv) && self@[kv]
                        == old(self)@[kv],
                forall|kv: KeyType::V|
                    old(self)@.contains_key(kv) && !(#[trigger] self@.contains_key(kv)) ==> exists|
                        k2: KeyType,
                        v2: ValueType,
                    |
                        k2.deep_view() == kv && v2.deep_view() == old(self)@[kv] && (
                        #[trigger] f.ensures((&k2, &v2), false)),
                !self.on_disk() ==> forall|kv: KeyType::V|
                    #[trigger] self@.contains_key(kv) ==> (exists|j: int|
                        i <= j < n && (#[trigger] ks@[j]).deep_view() == kv) || (exists|
                        k2: KeyType,
                        v2: ValueType,
                    |
                        k2.deep_view() == kv && v2.deep_view() == old(self)@[kv] && (
                        #[trigger] f.ensures((&k2, &v2), true))),
        {
            let ghost pre = *self;
            let value = self.get(&ks[i]);
            match value {
                Some(v) => {
                    if !f(&ks[i], &v) {
                        self.remove(&ks[i]);
                    }
                },
                None => {},
            }
            proof {
                let kvi = ks@[i as int].deep_view();
                if !self.on_disk() {
                    assert forall|kv: KeyType::V| #[trigger] self@.contains_key(kv) implies (
                    exists|j: int| i + 1 <= j < n && (#[trigger] ks@[j]).deep_view() == kv) || (
                    exists|k2: KeyType, v2: ValueType|
                        k2.deep_view() == kv && v2.deep_view() == old(self)@[kv] && (
                        #[trigger] f.ensures((&k2, &v2), true))) by {
                        if kv == kvi {
                            assert(pre@.contains_key(kv));
                        } else {
                            assert(pre@.contains_key(kv));
                            if exists|j: int| i <= j < n && (#[trigger] ks@[j]).deep_view() == kv {
                                let j0 = choose|j: int|
                                    i <= j < n && (#[trigger] ks@[j]).deep_view() == kv;
                                assert(j0 != i);
                            }
                        }
                    }
                }
            }
        }
    }

    /// A well-formed store's content map is finite; stated here because
    /// the invariant itself is not visible outside this module.
    pub proof fn lemma_wf_dom_finite(self)
        requires
            self.wf(),
        ensures
            self@.dom().finite(),
    {
    }

    /// After a failed write, every record byte outside the addressed range
    /// survives, so the whole invariant still holds; in disk mode the key
    /// being written has already left both the index and the model.
    proof fn lemma_after_placement_failure(&self, mid: Self, kv: KeyType::V, at: int, size: int)
        requires
            mid.wf_except(kv),
            self.mem@ == mid.mem@,
            self.using_disk == mid.using_disk,
            self.max_mem_entries == mid.max_mem_entries,
            self.index@ == mid.index@,
            forall|j: int|
                0 <= j < mid.index@.len() ==> (#[trigger] mid.index@[j]).0.deep_view() != kv,
            self.store.wf(),
            self.free.wf(),
            self.store.contents().len() >= mid.store.contents().len(),
            forall|b: int|
                0 <= b < mid.store.contents().len() && !(at <= b < at + size)
                    ==> self.store.contents()[b] == mid.store.contents()[b],
            forall|j: int, b: int|
                0 <= j < mid.index@.len() && #[trigger] in_region(mid.index@[j].1, b) ==> !(at
                    <= b < at + size),
            forall|b: int| covers(self.free.extents(), b) ==> covers(mid.free.extents(), b),
            self.using_disk ==> self.model@ == mid.model@.remove(kv),
            !self.using_disk ==> self.model@ == mid.model@,
        ensures
            self.wf(),
            self@ == mid@ || self@ == mid@.remove(kv),
    {
        let c0 = mid.store.contents();
        let c = self.store.contents();
        let idx = self.index@;
        assert forall|j: int| 0 <= j < idx.len() implies region_bytes(c, (#[trigger] idx[j]).1)
            == region_bytes(c0, idx[j].1) by {
            let plj = idx[j].1;
            assert(region_ok(plj, c0));
            assert forall|b: int| plj.position <= b < plj.position + plj.length implies c[b]
                == c0[b] by {
                assert(in_region(plj, b));
            }
            assert(region_bytes(c, plj) =~= region_bytes(c0, plj));
        }
        assert forall|j: int| 0 <= j < idx.len() implies region_ok((#[trigger] idx[j]).1, c) by {
            assert(region_ok(idx[j].1, c0));
        }
        assert forall|j: int, b: int|
            0 <= j < idx.len() && #[trigger] in_region(idx[j].1, b) implies !covers(
            self.free.extents(),
            b,
        ) by {
            assert(!covers(mid.free.extents(), b));
        }
        assert forall|b: int| covers(self.free.extents(), b) implies 0 <= b < c.len() by {
            assert(covers(mid.free.extents(), b));
        }
        if self.using_disk {
            assert forall|j: int| 0 <= j < idx.len() implies self.model@.dom().contains(
                (#[trigger] idx[j]).0.deep_view(),
            ) && region_bytes(c, idx[j].1) == ValueType::spec_encoded(
                self.model@[idx[j].0.deep_view()],
            ) by {
                assert(idx[j].0.deep_view() != kv);
                assert(self.model@[idx[j].0.deep_view()] == mid.model@[idx[j].0.deep_view()]);
            }
            assert forall|kv2: KeyType::V| self.model@.dom().contains(kv2) implies exists|i: int|
                0 <= i < idx.len() && (#[trigger] idx[i]).0.deep_view() == kv2 by {
                assert(mid.model@.dom().contains(kv2) && kv2 != kv);
            }
        }
    }
}

} // verus!
