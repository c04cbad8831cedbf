//! Free-space accounting for the disk-backed store: a list of free byte
//! ranges, kept sorted by offset, coalesced on every release, and consumed
//! with an exact-fit-first / first-fit-fallback policy.

use vstd::prelude::*;

verus! {

/// A contiguous unused byte range `[position, position + length)` in the
/// backing store.
#[derive(Clone, Copy)]
pub struct PositionLength {
    pub position: u64,
    pub length: u64,
}

impl PositionLength {
    pub fn new(position: u64, length: u64) -> (r: Self)
        ensures
            r.position == position,
            r.length == length,
    {
        Self { position, length }
    }

    pub fn position(&self) -> (r: u64)
        ensures
            r == self.position,
    {
        self.position
    }

    pub fn length(&self) -> (r: u64)
        ensures
            r == self.length,
    {
        self.length
    }

    fn end(&self) -> (r: u64)
        requires
            self.position + self.length <= u64::MAX,
        ensures
            r == self.position + self.length,
    {
        self.position + self.length
    }
}

/// The free extents are pairwise disjoint, non-adjacent, non-empty, sorted by
/// offset, and each fits in the 64-bit address space.
pub open spec fn extents_wf(s: Seq<PositionLength>) -> bool {
    &&& forall|i: int|
        0 <= i < s.len() ==> 1 <= #[trigger] s[i].length && s[i].position + s[i].length
            <= u64::MAX
    &&& forall|i: int, j: int|
        0 <= i < j < s.len() ==> #[trigger] s[i].position + s[i].length < #[trigger] s[j].position
}

/// Whether byte `b` lies inside one of the free extents.
pub open spec fn covers(s: Seq<PositionLength>, b: int) -> bool {
    exists|i: int|
        0 <= i < s.len() && (#[trigger] s[i].position) <= b < s[i].position + s[i].length
}

/// The released range may touch existing extents but not overlap them.
pub open spec fn disjoint_from_all(s: Seq<PositionLength>, pl: PositionLength) -> bool {
    forall|i: int|
        0 <= i < s.len() ==> pl.position + pl.length <= (#[trigger] s[i].position) || s[i].position
            + s[i].length <= pl.position
}

/// No extent strictly before index `k` has exactly the requested length.
pub open spec fn no_exact_before(s: Seq<PositionLength>, size: u64, k: int) -> bool {
    forall|j: int| 0 <= j < k ==> (#[trigger] s[j].length) != size
}

/// No extent strictly before index `k` is large enough for the request.
pub open spec fn no_fit_before(s: Seq<PositionLength>, size: u64, k: int) -> bool {
    forall|j: int| 0 <= j < k ==> (#[trigger] s[j].length) < size
}

/// `DiskFree` tracks the free byte ranges of the backing store and hands
/// them out again on request.
pub struct DiskFree {
    parts: Vec<PositionLength>,
}

impl DiskFree {
    /// The current free extents, in ascending offset order.
    pub closed spec fn extents(&self) -> Seq<PositionLength> {
        self.parts@
    }

    pub open spec fn wf(&self) -> bool {
        extents_wf(self.extents())
    }

    pub fn new() -> (r: Self)
        ensures
            r.extents() == Seq::<PositionLength>::empty(),
            r.wf(),
    {
        let r = Self { parts: Vec::new() };
        proof {
            assert(r.extents() =~= Seq::<PositionLength>::empty());
        }
        r
    }

    /// How many free extents are tracked.
    pub fn len(&self) -> (r: usize)
        ensures
            r == self.extents().len(),
    {
        self.parts.len()
    }

    /// The extent at the given offset-ordered position.
    pub fn extent(&self, i: usize) -> (r: PositionLength)
        requires
            i < self.extents().len(),
        ensures
            r == self.extents()[i as int],
    {
        self.parts[i]
    }

    /// Returns a freed byte range to the pool.  A range adjacent to one or
    /// two existing extents is merged with them; otherwise it is inserted at
    /// its offset-ordered place.  The set of free bytes afterwards is exactly
    /// the old set plus the released range.
    #[verifier::rlimit(100)]
    pub fn add(&mut self, new_pl: PositionLength)
        requires
            old(self).wf(),
            1 <= new_pl.length,
            new_pl.position + new_pl.length <= u64::MAX,
            disjoint_from_all(old(self).extents(), new_pl),
        ensures
            final(self).wf(),
            forall|b: int|
                covers(final(self).extents(), b) <==> covers(old(self).extents(), b)
                    || (new_pl.position <= b < new_pl.position + new_pl.length),
    {
        let ghost s = self.extents();
        let new_end = new_pl.end();
        let mut before: Option<usize> = None;
        let mut after: Option<usize> = None;
        let mut insert_idx: usize = 0;
        let n = self.parts.len();
        for k in 0..n
            invariant
                self.extents() == s,
                extents_wf(s),
                n == s.len(),
                1 <= new_pl.length,
                new_pl.position + new_pl.length <= u64::MAX,
                disjoint_from_all(s, new_pl),
                new_end == new_pl.position + new_pl.length,
                match before {
                    Some(i) => 0 <= i < k && s[i as int].position + s[i as int].length
                        == new_pl.position,
                    None => forall|j: int|
                        0 <= j < k ==> (#[trigger] s[j].position) + s[j].length != new_pl.position,
                },
                match after {
                    Some(i) => 0 <= i < k && s[i as int].position == new_end,
                    None => forall|j: int| 0 <= j < k ==> (#[trigger] s[j].position) != new_end,
                },
                insert_idx <= k,
                forall|j: int| 0 <= j < insert_idx ==> (#[trigger] s[j].position) < new_pl.position,
                forall|j: int|
                    insert_idx <= j < k ==> (#[trigger] s[j].position) > new_pl.position,
        {
            let pl = self.parts[k];
            if pl.end() == new_pl.position {
                before = Some(k);
            }
            if pl.position == new_end {
                after = Some(k);
            }
            if pl.position < new_pl.position {
                insert_idx = k + 1;
                proof {
                    // everything before an extent that starts below the new
                    // range also starts below it
                    assert forall|j: int| 0 <= j < insert_idx implies (#[trigger] s[j].position)
                        < new_pl.position by {
                        if j < k as int {
                            assert(s[j].position + s[j].length < s[k as int].position);
                        }
                    }
                }
            } else {
                proof {
                    // equal starts would overlap the released range
                    assert(new_pl.position + new_pl.length <= s[k as int].position
                        || s[k as int].position + s[k as int].length <= new_pl.position);
                    assert(s[k as int].position > new_pl.position);
                }
            }
        }
        match (before, after) {
            (Some(bi), Some(ai)) => {
                // the released range bridges two extents: merge all three
                proof {
                    let bii = bi as int;
                    let aii = ai as int;
                    assert(bii < aii) by {
                        if aii < bii {
                            assert(s[aii].position + s[aii].length < s[bii].position);
                        }
                        assert(bii != aii);
                    }
                    assert(aii == bii + 1) by {
                        if bii + 1 < aii {
                            let m = bii + 1;
                            assert(s[bii].position + s[bii].length < s[m].position);
                            assert(s[m].position + s[m].length < s[aii].position);
                        }
                    }
                    // the merged extent is exactly the span of both
                    // neighbors plus the released range, so it still fits
                    assert(s[bii].length + new_pl.length + s[aii].length == s[aii].position
                        + s[aii].length - s[bii].position);
                    assert(s[aii].position + s[aii].length <= u64::MAX);
                }
                let merged_pos = self.parts[bi].position;
                let merged_len = self.parts[bi].length + new_pl.length + self.parts[ai].length;
                self.parts[bi] = PositionLength::new(merged_pos, merged_len);
                self.parts.remove(ai);
                proof {
                    let t = self.extents();
                    let bii = bi as int;
                    let aii = ai as int;
                    assert forall|b: int| covers(t, b) implies covers(s, b) || (new_pl.position
                        <= b < new_end) by {
                        let i = choose|i: int|
                            0 <= i < t.len() && (#[trigger] t[i].position) <= b < t[i].position
                                + t[i].length;
                        if i < bii {
                            assert(s[i].position <= b < s[i].position + s[i].length);
                        } else if i == bii {
                            if b < s[bii].position + s[bii].length {
                                assert(s[bii].position <= b < s[bii].position + s[bii].length);
                            } else if b < new_end {
                            } else {
                                assert(s[aii].position <= b < s[aii].position + s[aii].length);
                            }
                        } else {
                            assert(t[i] == s[i + 1]);
                            assert(s[i + 1].position <= b < s[i + 1].position + s[i + 1].length);
                        }
                    }
                    assert forall|b: int| covers(s, b) || (new_pl.position <= b < new_end) implies
                        covers(t, b) by {
                        if covers(s, b) {
                            let i = choose|i: int|
                                0 <= i < s.len() && (#[trigger] s[i].position) <= b < s[i].position
                                    + s[i].length;
                            if i < bii {
                                assert(t[i].position <= b < t[i].position + t[i].length);
                            } else if i == bii || i == aii {
                                assert(t[bii].position <= b < t[bii].position + t[bii].length);
                            } else {
                                assert(t[i - 1] == s[i]);
                                assert(t[i - 1].position <= b < t[i - 1].position + t[i
                                    - 1].length);
                            }
                        } else {
                            assert(t[bii].position <= b < t[bii].position + t[bii].length);
                        }
                    }
                    assert forall|i: int, j: int| 0 <= i < j < t.len() implies (#[trigger] t[i].position)
                        + t[i].length < (#[trigger] t[j].position) by {
                        if j < bii {
                            assert(s[i].position + s[i].length < s[j].position);
                        } else if j == bii {
                            assert(s[i].position + s[i].length < s[bii].position);
                        } else if i < bii {
                            assert(t[j] == s[j + 1]);
                            assert(s[i].position + s[i].length < s[j + 1].position);
                        } else if i == bii {
                            assert(t[j] == s[j + 1]);
                            assert(s[aii].position + s[aii].length < s[j + 1].position);
                        } else {
                            assert(t[i] == s[i + 1] && t[j] == s[j + 1]);
                            assert(s[i + 1].position + s[i + 1].length < s[j + 1].position);
                        }
                    }
                }
            },
            (Some(bi), None) => {
                // extend the earlier neighbor forward over the new range
                let p = self.parts[bi].position;
                let l = self.parts[bi].length + new_pl.length;
                proof {
                    let bii = bi as int;
                    assert forall|j: int| bii < j < s.len() implies new_end < (
                    #[trigger] s[j].position) by {
                        assert(new_end <= s[j].position || s[j].position + s[j].length
                            <= new_pl.position);
                        assert(s[j].position != new_end);
                        if s[j].position + s[j].length <= new_pl.position {
                            assert(s[bii].position + s[bii].length < s[j].position);
                        }
                    }
                }
                self.parts[bi] = PositionLength::new(p, l);
                proof {
                    let t = self.extents();
                    let bii = bi as int;
                    assert forall|b: int| covers(t, b) implies covers(s, b) || (new_pl.position
                        <= b < new_end) by {
                        let i = choose|i: int|
                            0 <= i < t.len() && (#[trigger] t[i].position) <= b < t[i].position
                                + t[i].length;
                        if i == bii {
                            if b < s[bii].position + s[bii].length {
                                assert(s[bii].position <= b < s[bii].position + s[bii].length);
                            }
                        } else {
                            assert(s[i].position <= b < s[i].position + s[i].length);
                        }
                    }
                    assert forall|b: int| covers(s, b) || (new_pl.position <= b < new_end) implies
                        covers(t, b) by {
                        if covers(s, b) {
                            let i = choose|i: int|
                                0 <= i < s.len() && (#[trigger] s[i].position) <= b < s[i].position
                                    + s[i].length;
                            if i == bii {
                                assert(t[bii].position <= b < t[bii].position + t[bii].length);
                            } else {
                                assert(t[i].position <= b < t[i].position + t[i].length);
                            }
                        } else {
                            assert(t[bii].position <= b < t[bii].position + t[bii].length);
                        }
                    }
                }
            },
            (None, Some(ai)) => {
                // extend the later neighbor backward over the new range
                let l = self.parts[ai].length + new_pl.length;
                proof {
                    let aii = ai as int;
                    assert forall|j: int| 0 <= j < aii implies (#[trigger] s[j].position)
                        + s[j].length < new_pl.position by {
                        assert(new_end <= s[j].position || s[j].position + s[j].length
                            <= new_pl.position);
                        assert(s[j].position + s[j].length != new_pl.position);
                        if new_end <= s[j].position {
                            assert(s[j].position + s[j].length < s[aii].position);
                        }
                    }
                }
                self.parts[ai] = PositionLength::new(new_pl.position, l);
                proof {
                    let t = self.extents();
                    let aii = ai as int;
                    assert forall|b: int| covers(t, b) implies covers(s, b) || (new_pl.position
                        <= b < new_end) by {
                        let i = choose|i: int|
                            0 <= i < t.len() && (#[trigger] t[i].position) <= b < t[i].position
                                + t[i].length;
                        if i == aii {
                            if b >= new_end {
                                assert(s[aii].position <= b < s[aii].position + s[aii].length);
                            }
                        } else {
                            assert(s[i].position <= b < s[i].position + s[i].length);
                        }
                    }
                    assert forall|b: int| covers(s, b) || (new_pl.position <= b < new_end) implies
                        covers(t, b) by {
                        if covers(s, b) {
                            let i = choose|i: int|
                                0 <= i < s.len() && (#[trigger] s[i].position) <= b < s[i].position
                                    + s[i].length;
                            if i == aii {
                                assert(t[aii].position <= b < t[aii].position + t[aii].length);
                            } else {
                                assert(t[i].position <= b < t[i].position + t[i].length);
                            }
                        } else {
                            assert(t[aii].position <= b < t[aii].position + t[aii].length);
                        }
                    }
                }
            },
            (None, None) => {
                proof {
                    assert forall|j: int| insert_idx <= j < s.len() implies new_end < (
                    #[trigger] s[j].position) by {
                        assert(new_end <= s[j].position || s[j].position + s[j].length
                            <= new_pl.position);
                        assert(s[j].position != new_end);
                        assert(s[j].position > new_pl.position);
                    }
                    assert forall|j: int| 0 <= j < insert_idx implies (#[trigger] s[j].position)
                        + s[j].length < new_pl.position by {
                        assert(new_end <= s[j].position || s[j].position + s[j].length
                            <= new_pl.position);
                        assert(s[j].position + s[j].length != new_pl.position);
                        assert(s[j].position < new_pl.position);
                    }
                }
                self.parts.insert(insert_idx, new_pl);
                proof {
                    let t = self.extents();
                    let ii = insert_idx as int;
                    assert forall|b: int| covers(t, b) implies covers(s, b) || (new_pl.position
                        <= b < new_end) by {
                        let i = choose|i: int|
                            0 <= i < t.len() && (#[trigger] t[i].position) <= b < t[i].position
                                + t[i].length;
                        if i < ii {
                            assert(s[i].position <= b < s[i].position + s[i].length);
                        } else if i > ii {
                            assert(t[i] == s[i - 1]);
                            assert(s[i - 1].position <= b < s[i - 1].position + s[i - 1].length);
                        }
                    }
                    assert forall|b: int| covers(s, b) || (new_pl.position <= b < new_end) implies
                        covers(t, b) by {
                        if covers(s, b) {
                            let i = choose|i: int|
                                0 <= i < s.len() && (#[trigger] s[i].position) <= b < s[i].position
                                    + s[i].length;
                            if i < ii {
                                assert(t[i].position <= b < t[i].position + t[i].length);
                            } else {
                                assert(t[i + 1] == s[i]);
                                assert(t[i + 1].position <= b < t[i + 1].position + t[i
                                    + 1].length);
                            }
                        } else {
                            assert(t[ii].position <= b < t[ii].position + t[ii].length);
                        }
                    }
                    assert forall|i: int, j: int| 0 <= i < j < t.len() implies (#[trigger] t[i].position)
                        + t[i].length < (#[trigger] t[j].position) by {
                        if j < ii {
                            assert(s[i].position + s[i].length < s[j].position);
                        } else if i > ii {
                            assert(t[i] == s[i - 1] && t[j] == s[j - 1]);
                            assert(s[i - 1].position + s[i - 1].length < s[j - 1].position);
                        } else if i < ii && j > ii {
                            assert(t[i] == s[i] && t[j] == s[j - 1]);
                            assert(s[i].position + s[i].length < new_pl.position);
                            assert(new_end < s[j - 1].position || j - 1 == ii);
                            assert(s[i].position + s[i].length < s[j - 1].position || j - 1 == ii);
                        } else if i == ii {
                            assert(t[j] == s[j - 1]);
                            assert(new_end < s[j - 1].position);
                        } else {
                            assert(j == ii && t[i] == s[i]);
                            assert(s[i].position + s[i].length < new_pl.position);
                        }
                    }
                }
            },
        }
    }

    /// Hands out a free range of exactly `size` bytes if one exists
    /// (removing that extent), else carves the request out of the first
    /// extent large enough, else returns `None` (the caller then appends at
    /// the end of the store instead).
    #[verifier::rlimit(50)]
    pub fn find_free(&mut self, size: u64) -> (r: Option<u64>)
        requires
            old(self).wf(),
        ensures
            final(self).wf(),
            ({
                let s = old(self).extents();
                let t = final(self).extents();
                if exists|i: int| 0 <= i < s.len() && (#[trigger] s[i].length) == size {
                    exists|i: int|
                        {
                            &&& 0 <= i < s.len()
                            &&& (#[trigger] s[i].length) == size
                            &&& no_exact_before(s, size, i)
                            &&& r == Some(s[i].position)
                            &&& t =~= s.remove(i)
                        }
                } else if exists|i: int| 0 <= i < s.len() && (#[trigger] s[i].length) >= size {
                    exists|i: int|
                        {
                            &&& 0 <= i < s.len()
                            &&& (#[trigger] s[i].length) > size
                            &&& no_fit_before(s, size, i)
                            &&& r == Some(s[i].position)
                            &&& t =~= s.update(
                                i,
                                PositionLength {
                                    position: (s[i].position + size) as u64,
                                    length: (s[i].length - size) as u64,
                                },
                            )
                        }
                } else {
                    r is None && t == s
                }
            }),
            match r {
                Some(pos) => {
                    &&& pos + size <= u64::MAX
                    &&& covers(old(self).extents(), pos as int)
                    &&& forall|b: int|
                        pos <= b < pos + size ==> covers(old(self).extents(), b)
                    &&& forall|b: int|
                        covers(final(self).extents(), b) <==> covers(old(self).extents(), b) && !(
                        pos <= b < pos + size)
                },
                None => final(self).extents() == old(self).extents(),
            },
    {
        let ghost s = self.extents();
        let n = self.parts.len();
        // first pass: an exact fit avoids fragmenting a larger extent
        let mut exact: Option<usize> = None;
        for k in 0..n
            invariant
                self.extents() == s,
                extents_wf(s),
                n == s.len(),
                match exact {
                    Some(i) => 0 <= i < k && s[i as int].length == size && no_exact_before(
                        s,
                        size,
                        i as int,
                    ),
                    None => no_exact_before(s, size, k as int),
                },
        {
            if exact.is_none() && self.parts[k].length == size {
                exact = Some(k);
            }
        }
        if let Some(i) = exact {
            let position = self.parts[i].position;
            self.parts.remove(i);
            proof {
                let ii = i as int;
                let t = self.extents();
                assert(t =~= s.remove(ii));
                assert(exists|j: int| 0 <= j < s.len() && (#[trigger] s[j].length) == size);
                assert({
                    &&& 0 <= ii < s.len()
                    &&& s[ii].length == size
                    &&& no_exact_before(s, size, ii)
                    &&& Some(position) == Some(s[ii].position)
                    &&& t =~= s.remove(ii)
                });
                assert forall|a: int, b: int| 0 <= a < b < t.len() implies (#[trigger] t[a].position)
                    + t[a].length < (#[trigger] t[b].position) by {
                    if b < ii {
                        assert(s[a].position + s[a].length < s[b].position);
                    } else if a >= ii {
                        assert(t[a] == s[a + 1] && t[b] == s[b + 1]);
                        assert(s[a + 1].position + s[a + 1].length < s[b + 1].position);
                    } else {
                        assert(t[a] == s[a] && t[b] == s[b + 1]);
                        assert(s[a].position + s[a].length < s[b + 1].position);
                    }
                }
                assert forall|b: int| position <= b < position + size implies covers(s, b) by {
                    assert(s[ii].position <= b < s[ii].position + s[ii].length);
                }
                assert(covers(s, position as int)) by {
                    assert(s[ii].position <= position < s[ii].position + s[ii].length);
                }
                assert forall|b: int| covers(t, b) implies covers(s, b) && !(position <= b
                    < position + size) by {
                    let j = choose|j: int|
                        0 <= j < t.len() && (#[trigger] t[j].position) <= b < t[j].position
                            + t[j].length;
                    let j2: int = if j < ii {
                        j
                    } else {
                        j + 1
                    };
                    assert(s[j2].position <= b < s[j2].position + s[j2].length);
                    if ii < j2 {
                        assert(s[ii].position + s[ii].length < s[j2].position);
                    }
                    if j2 < ii {
                        assert(s[j2].position + s[j2].length < s[ii].position);
                    }
                }
                assert forall|b: int| covers(s, b) && !(position <= b < position + size) implies
                    covers(t, b) by {
                    let j = choose|j: int|
                        0 <= j < s.len() && (#[trigger] s[j].position) <= b < s[j].position
                            + s[j].length;
                    assert(j != ii);
                    if j < ii {
                        assert(t[j].position <= b < t[j].position + t[j].length);
                    } else {
                        assert(t[j - 1] == s[j]);
                        assert(t[j - 1].position <= b < t[j - 1].position + t[j - 1].length);
                    }
                }
            }
            return Some(position);
        }
        // second pass: first fit, leaving the remainder free
        let mut k: usize = 0;
        while k < n
            invariant
                self.extents() == s,
                s == old(self).extents(),
                extents_wf(s),
                n == s.len(),
                k <= n,
                no_fit_before(s, size, k as int),
                no_exact_before(s, size, s.len() as int),
            decreases n - k,
        {
            if self.parts[k].length >= size {
                let position = self.parts[k].position;
                let ghost ki = k as int;
                proof {
                    assert(s[ki].length != size);
                }
                let shrunk = PositionLength::new(
                    self.parts[k].position + size,
                    self.parts[k].length - size,
                );
                self.parts[k] = shrunk;
                proof {
                    let t = self.extents();
                    assert forall|a: int, b: int| 0 <= a < b < t.len() implies (#[trigger] t[a].position)
                        + t[a].length < (#[trigger] t[b].position) by {
                        assert(s[a].position + s[a].length < s[b].position);
                    }
                    assert forall|b: int| position <= b < position + size implies covers(s, b) by {
                        assert(s[ki].position <= b < s[ki].position + s[ki].length);
                    }
                    assert(covers(s, position as int)) by {
                        assert(s[ki].position <= position < s[ki].position + s[ki].length);
                    }
                    assert forall|b: int| covers(t, b) implies covers(s, b) && !(position <= b
                        < position + size) by {
                        let j = choose|j: int|
                            0 <= j < t.len() && (#[trigger] t[j].position) <= b < t[j].position
                                + t[j].length;
                        assert(s[j].position <= b < s[j].position + s[j].length);
                        if j != ki {
                            if ki < j {
                                assert(s[ki].position + s[ki].length < s[j].position);
                            } else {
                                assert(s[j].position + s[j].length < s[ki].position);
                            }
                        }
                    }
                    assert forall|b: int| covers(s, b) && !(position <= b < position + size)
                        implies covers(t, b) by {
                        let j = choose|j: int|
                            0 <= j < s.len() && (#[trigger] s[j].position) <= b < s[j].position
                                + s[j].length;
                        assert(t[j].position <= b < t[j].position + t[j].length);
                    }
                    assert(!exists|i: int| 0 <= i < s.len() && (#[trigger] s[i].length) == size)
                        by {
                        assert(no_exact_before(s, size, s.len() as int));
                    }
                    assert(exists|i: int| 0 <= i < s.len() && (#[trigger] s[i].length) >= size);
                    assert({
                        &&& 0 <= ki < s.len()
                        &&& s[ki].length > size
                        &&& no_fit_before(s, size, ki)
                        &&& Some(position) == Some(s[ki].position)
                        &&& t =~= s.update(
                            ki,
                            PositionLength {
                                position: (s[ki].position + size) as u64,
                                length: (s[ki].length - size) as u64,
                            },
                        )
                    });
                }
                return Some(position);
            }
            k += 1;
        }
        proof {
            assert forall|i: int| 0 <= i < s.len() implies (#[trigger] s[i].length) < size by {
                assert(no_fit_before(s, size, s.len() as int));
            }
        }
        None
    }
}

impl Default for DiskFree {
    fn default() -> (r: Self)
        ensures
            r.extents() == Seq::<PositionLength>::empty(),
            r.wf(),
    {
        Self::new()
    }
}

/// A non-empty range none of whose bytes is free cannot overlap any free
/// extent; callers of `add` discharge its disjointness requirement with
/// this.
pub proof fn lemma_range_disjoint(s: Seq<PositionLength>, pl: PositionLength)
    requires
        extents_wf(s),
        1 <= pl.length,
        forall|b: int| pl.position <= b < pl.position + pl.length ==> !covers(s, b),
    ensures
        disjoint_from_all(s, pl),
{
    assert forall|i: int| 0 <= i < s.len() implies pl.position + pl.length <= (
    #[trigger] s[i]).position || s[i].position + s[i].length <= pl.position by {
        if !(pl.position + pl.length <= s[i].position || s[i].position + s[i].length
            <= pl.position) {
            let b: int = if pl.position >= s[i].position {
                pl.position as int
            } else {
                s[i].position as int
            };
            assert(s[i].position <= b < s[i].position + s[i].length);
            assert(covers(s, b));
            assert(pl.position <= b < pl.position + pl.length);
        }
    }
}

/// A well-formed extent list whose free bytes form the single interval
/// `[lo, hi)` must consist of exactly one extent `[lo, hi)`: coalescing
/// never leaves an interval split in two.
pub proof fn lemma_single_interval(s: Seq<PositionLength>, lo: int, hi: int)
    requires
        extents_wf(s),
        0 <= lo < hi <= u64::MAX,
        forall|b: int| covers(s, b) <==> lo <= b < hi,
    ensures
        s =~= seq![PositionLength { position: lo as u64, length: (hi - lo) as u64 }],
{
    assert(covers(s, lo));
    assert(s.len() >= 1);
    if s.len() >= 2 {
        let g = s[0].position + s[0].length;
        assert(covers(s, s[0].position as int));
        assert(lo <= s[0].position);
        assert(covers(s, s[1].position as int));
        assert(s[1].position < hi);
        assert(s[0].position + s[0].length < s[1].position);
        assert(lo <= g < hi);
        assert(covers(s, g));
        let j = choose|j: int|
            0 <= j < s.len() && (#[trigger] s[j].position) <= g < s[j].position + s[j].length;
        assert(j != 0);
        assert(s[0].position + s[0].length < s[j].position || j == 1);
        assert(s[1].position <= s[j].position || j == 1) by {
            if j > 1 {
                assert(s[1].position + s[1].length < s[j].position);
            }
        }
        assert(false);
    }
    assert(covers(s, hi - 1));
    let e = s[0];
    assert(covers(s, e.position as int));
    assert(covers(s, e.position + e.length - 1));
    assert(lo <= e.position && e.position + e.length <= hi);
    assert(covers(s, lo));
    assert(e.position <= lo);
    assert(covers(s, hi - 1));
    assert(hi - 1 < e.position + e.length);
    assert(e.position == lo && e.position + e.length == hi);
}

} // verus!
