//! The free-list allocator: the unallocated part of the address range
//! `[1, limit)` kept as a sequence of extents in ascending address order,
//! with first-fit allocation and eager coalescing on release.
//!
//! Address 0 is the null address and is never part of any extent.

use vstd::prelude::*;

verus! {

/// A contiguous run of addresses, `[base, base + len)`.
#[derive(Clone, Copy, Debug, PartialEq, Eq, Structural)]
pub struct Extent {
    pub base: usize,
    pub len: usize,
}

impl Extent {
    /// The first address after the extent.
    pub open spec fn end(self) -> int {
        self.base + self.len
    }

    /// Whether address `a` lies inside the extent.
    pub open spec fn covers(self, a: int) -> bool {
        self.base <= a < self.base + self.len
    }
}

/// Whether some extent of `s` contains address `a`.
pub open spec fn covered(s: Seq<Extent>, a: int) -> bool {
    exists|i: int| 0 <= i < s.len() && (#[trigger] s[i]).covers(a)
}

/// The set of addresses that the extents of `s` contain.
pub open spec fn free_set(s: Seq<Extent>) -> Set<int> {
    Set::new(|a: int| covered(s, a))
}

/// The addresses `[ptr, ptr + size)` as a set.
pub open spec fn span(ptr: int, size: int) -> Set<int> {
    Set::new(|a: int| ptr <= a < ptr + size)
}

/// The invariant of a free list over the address range `[1, limit)`:
/// every extent is non-empty and inside the range, and each extent ends
/// strictly before any later one begins. The extents are therefore sorted
/// by base, pairwise disjoint, and no two of them could be merged. The range
/// itself is one that machine addresses can name.
pub open spec fn well_formed(s: Seq<Extent>, limit: int) -> bool {
    &&& limit <= usize::MAX
    &&& forall|i: int|
        0 <= i < s.len() ==> 1 <= (#[trigger] s[i]).base && s[i].len > 0 && s[i].end() <= limit
    &&& forall|i: int, j: int|
        0 <= i < j < s.len() ==> (#[trigger] s[i]).end() < (#[trigger] s[j]).base
}

/// Index `k` holds the first extent of `s` that can satisfy a request for
/// `size` words.
pub open spec fn is_first_fit(s: Seq<Extent>, size: int, k: int) -> bool {
    &&& 0 <= k < s.len()
    &&& s[k].len >= size
    &&& forall|j: int| 0 <= j < k ==> (#[trigger] s[j]).len < size
}

/// The index of the first extent that can hold `size` words, if there is one.
pub open spec fn first_fit(s: Seq<Extent>, size: int) -> Option<int> {
    if exists|k: int| is_first_fit(s, size, k) {
        Some(choose|k: int| is_first_fit(s, size, k))
    } else {
        None
    }
}

/// The free list after `size` words were taken from the front of extent `k`:
/// the extent disappears when it is used up, and otherwise keeps what lies
/// behind the allocation.
pub open spec fn carved(s: Seq<Extent>, k: int, size: int) -> Seq<Extent> {
    if s[k].len == size {
        s.remove(k)
    } else {
        s.update(k, Extent { base: (s[k].base + size) as usize, len: (s[k].len - size) as usize })
    }
}

/// Whether `[ptr, ptr + size)` may be handed back to the free list `s` over
/// `[1, limit)`: it is a non-empty run inside the range, none of whose
/// addresses is free already.
pub open spec fn can_release(s: Seq<Extent>, limit: int, ptr: int, size: int) -> bool {
    &&& size > 0
    &&& 1 <= ptr
    &&& ptr + size <= limit
    &&& forall|a: int| ptr <= a < ptr + size ==> !covered(s, a)
}

/// The free list after `[ptr, ptr + size)` was handed back to `s`: the
/// well-formed list whose addresses are those of `s` together with the
/// returned run. There is exactly one such list (see `lemma_canonical`), so
/// neighbours of the returned run are merged with it.
pub open spec fn released(s: Seq<Extent>, limit: int, ptr: int, size: int) -> Seq<Extent> {
    choose|t: Seq<Extent>| well_formed(t, limit) && free_set(t) == free_set(s) + span(ptr, size)
}

/// A well-formed free list is determined by the set of addresses it holds.
pub proof fn lemma_canonical(s: Seq<Extent>, t: Seq<Extent>, limit: int)
    requires
        well_formed(s, limit),
        well_formed(t, limit),
        free_set(s) == free_set(t),
    ensures
        s == t,
    decreases s.len(),
{
    assert forall|a: int| covered(s, a) == covered(t, a) by {
        assert(free_set(s).contains(a) == covered(s, a));
        assert(free_set(t).contains(a) == covered(t, a));
    }
    if s.len() == 0 {
        if t.len() > 0 {
            assert(t[0].covers(t[0].base as int));
            assert(covered(t, t[0].base as int));
        }
        assert(s =~= t);
    } else if t.len() == 0 {
        assert(s[0].covers(s[0].base as int));
        assert(covered(s, s[0].base as int));
    } else {
        lemma_head_base(s, t, limit);
        lemma_head_base(t, s, limit);
        lemma_head_end(s, t, limit);
        lemma_head_end(t, s, limit);
        assert(s[0] == t[0]);
        let s1 = s.drop_first();
        let t1 = t.drop_first();
        lemma_tail(s, limit);
        lemma_tail(t, limit);
        assert(free_set(s1) =~= free_set(t1)) by {
            assert forall|a: int| covered(s1, a) == covered(t1, a) by {
                assert(covered(s, a) == covered(t, a));
            }
        }
        lemma_canonical(s1, t1, limit);
        assert(s =~= seq![s[0]] + s1);
        assert(t =~= seq![t[0]] + t1);
    }
}

/// The lowest free address of a non-empty well-formed list is the base of
/// its first extent, so two lists with the same addresses start no later
/// than each other.
proof fn lemma_head_base(s: Seq<Extent>, t: Seq<Extent>, limit: int)
    requires
        well_formed(s, limit),
        well_formed(t, limit),
        forall|a: int| covered(s, a) == covered(t, a),
        s.len() > 0,
        t.len() > 0,
    ensures
        s[0].base <= t[0].base,
{
    let a = t[0].base as int;
    assert(t[0].covers(a));
    assert(covered(t, a));
    assert(covered(s, a));
    let i = choose|i: int| 0 <= i < s.len() && (#[trigger] s[i]).covers(a);
    if i > 0 {
        assert(s[0].end() < s[i].base);
    }
}

/// Two lists with the same addresses and the same first base have first
/// extents that end no earlier than each other.
proof fn lemma_head_end(s: Seq<Extent>, t: Seq<Extent>, limit: int)
    requires
        well_formed(s, limit),
        well_formed(t, limit),
        forall|a: int| covered(s, a) == covered(t, a),
        s.len() > 0,
        t.len() > 0,
        s[0].base == t[0].base,
    ensures
        s[0].end() <= t[0].end(),
{
    if s[0].end() > t[0].end() {
        let a = t[0].end();
        assert(s[0].covers(a));
        assert(covered(s, a));
        assert(covered(t, a));
        let j = choose|j: int| 0 <= j < t.len() && (#[trigger] t[j]).covers(a);
        if j > 0 {
            assert(t[0].end() < t[j].base);
        }
    }
}

/// Dropping the first extent of a well-formed list leaves a well-formed
/// list that holds the same addresses but those of the dropped extent.
proof fn lemma_tail(s: Seq<Extent>, limit: int)
    requires
        well_formed(s, limit),
        s.len() > 0,
    ensures
        well_formed(s.drop_first(), limit),
        forall|a: int| covered(s.drop_first(), a) == (covered(s, a) && !s[0].covers(a)),
{
    let s1 = s.drop_first();
    assert forall|i: int| 0 <= i < s1.len() implies 1 <= (#[trigger] s1[i]).base && s1[i].len > 0
        && s1[i].end() <= limit by {
        assert(s1[i] == s[i + 1]);
    }
    assert forall|i: int, j: int| 0 <= i < j < s1.len() implies (#[trigger] s1[i]).end() < (
    #[trigger] s1[j]).base by {
        assert(s1[i] == s[i + 1]);
        assert(s1[j] == s[j + 1]);
    }
    assert forall|a: int| covered(s1, a) == (covered(s, a) && !s[0].covers(a)) by {
        if covered(s1, a) {
            let i = choose|i: int| 0 <= i < s1.len() && (#[trigger] s1[i]).covers(a);
            assert(s1[i] == s[i + 1]);
            assert(s[i + 1].covers(a));
            assert(s[0].end() < s[i + 1].base);
        }
        if covered(s, a) && !s[0].covers(a) {
            let i = choose|i: int| 0 <= i < s.len() && (#[trigger] s[i]).covers(a);
            assert(i > 0);
            assert(s1[i - 1] == s[i]);
            assert(s1[i - 1].covers(a));
        }
    }
}

/// The free extents of the address range `[1, limit)`, in ascending order.
pub struct FreeList {
    extents: Vec<Extent>,
    limit: usize,
}

impl View for FreeList {
    type V = Seq<Extent>;

    closed spec fn view(&self) -> Seq<Extent> {
        self.extents@
    }
}

impl FreeList {
    /// The end of the managed address range.
    pub closed spec fn limit(&self) -> int {
        self.limit as int
    }

    /// The invariant that every operation keeps.
    pub open spec fn wf(&self) -> bool {
        well_formed(self@, self.limit())
    }

    /// A free list in which all of `[1, limit)` is free.
    pub fn new(limit: usize) -> (list: FreeList)
        ensures
            list.wf(),
            list.limit() == limit,
            list@ == (if limit > 1 {
                seq![Extent { base: 1, len: (limit - 1) as usize }]
            } else {
                Seq::<Extent>::empty()
            }),
            free_set(list@) == span(1, limit - 1),
    {
        let mut extents: Vec<Extent> = Vec::new();
        if limit > 1 {
            extents.push(Extent { base: 1, len: limit - 1 });
        }
        let list = FreeList { extents, limit };
        proof {
            assert(list@ =~= (if limit > 1 {
                seq![Extent { base: 1, len: (limit - 1) as usize }]
            } else {
                Seq::<Extent>::empty()
            }));
            assert forall|a: int| covered(list@, a) == (1 <= a < limit) by {
                if 1 <= a < limit {
                    assert(list@[0].covers(a));
                }
            }
            assert(free_set(list@) =~= span(1, limit - 1));
        }
        list
    }

    /// The end of the managed address range.
    pub fn end(&self) -> (limit: usize)
        ensures
            limit == self.limit(),
    {
        self.limit
    }

    /// The free extents, in ascending order.
    pub fn extents(&self) -> (extents: Vec<Extent>)
        ensures
            extents@ == self@,
    {
        self.extents.clone()
    }
}

/// Takes `size` words from the first extent that is large enough, and
/// returns the address of the first of them.
///
/// A request for no words is answered with the null address 0 and leaves
/// the list as it is. Otherwise the first extent in address order whose
/// length is at least `size` gives up its first `size` words; `None`, with
/// the list unchanged, says that no single extent is that large.
pub fn malloc(free_list: &mut FreeList, size: usize) -> (ptr: Option<usize>)
    requires
        old(free_list).wf(),
    ensures
        final(free_list).wf(),
        final(free_list).limit() == old(free_list).limit(),
        size == 0 ==> ptr == Some(0usize) && final(free_list)@ == old(free_list)@,
        size > 0 ==> match first_fit(old(free_list)@, size as int) {
            Some(k) => {
                &&& ptr == Some(old(free_list)@[k].base)
                &&& final(free_list)@ == carved(old(free_list)@, k, size as int)
                &&& free_set(final(free_list)@) == free_set(old(free_list)@) - span(
                    old(free_list)@[k].base as int,
                    size as int,
                )
            },
            None => ptr is None && final(free_list)@ == old(free_list)@,
        },
{
    if size == 0 {
        return Some(0);
    }
    let n = free_list.extents.len();
    let mut k: usize = 0;
    while k < n && free_list.extents[k].len < size
        invariant
            k <= n,
            n == free_list.extents.len(),
            *free_list == *old(free_list),
            forall|j: int| 0 <= j < k ==> (#[trigger] free_list@[j]).len < size,
        decreases n - k,
    {
        k += 1;
    }
    let ghost before = free_list@;
    if k == n {
        proof {
            assert forall|j: int| !is_first_fit(before, size as int, j) by {
                if 0 <= j < before.len() {
                    assert(before[j].len < size);
                }
            }
        }
        return None;
    }
    proof {
        assert(is_first_fit(before, size as int, k as int));
        let c = choose|c: int| is_first_fit(before, size as int, c);
        if c < k {
            assert(before[c].len < size);
        }
        if k < c {
            assert(before[k as int].len < size);
        }
        lemma_carved(before, free_list.limit(), k as int, size as int);
    }
    let found = free_list.extents[k];
    if found.len == size {
        free_list.extents.remove(k);
    } else {
        free_list.extents.set(k, Extent { base: found.base + size, len: found.len - size });
    }
    Some(found.base)
}

/// Taking `size` words from the front of an extent that holds at least as
/// many keeps the list well-formed and removes just those addresses.
pub proof fn lemma_carved(s: Seq<Extent>, limit: int, k: int, size: int)
    requires
        well_formed(s, limit),
        0 <= k < s.len(),
        0 < size <= s[k].len,
    ensures
        well_formed(carved(s, k, size), limit),
        free_set(carved(s, k, size)) == free_set(s) - span(s[k].base as int, size),
{
    let t = carved(s, k, size);
    let p = s[k].base as int;
    if s[k].len == size {
        assert forall|i: int| 0 <= i < t.len() implies t[i] == s[if i < k { i } else { i + 1 }] by {}
        assert forall|i: int, j: int| 0 <= i < j < t.len() implies (#[trigger] t[i]).end() < (
        #[trigger] t[j]).base by {
            assert(t[i] == s[if i < k { i } else { i + 1 }]);
            assert(t[j] == s[if j < k { j } else { j + 1 }]);
        }
        assert forall|i: int| 0 <= i < t.len() implies 1 <= (#[trigger] t[i]).base && t[i].len > 0
            && t[i].end() <= limit by {
            assert(t[i] == s[if i < k { i } else { i + 1 }]);
        }
        assert forall|a: int| covered(t, a) == (covered(s, a) && !(p <= a < p + size)) by {
            if covered(t, a) {
                let i = choose|i: int| 0 <= i < t.len() && (#[trigger] t[i]).covers(a);
                let i2 = if i < k { i } else { i + 1 };
                assert(t[i] == s[i2]);
                assert(s[i2].covers(a));
                if i2 < k {
                    assert(s[i2].end() < s[k].base);
                } else {
                    assert(s[k].end() < s[i2].base);
                }
            }
            if covered(s, a) && !(p <= a < p + size) {
                let i = choose|i: int| 0 <= i < s.len() && (#[trigger] s[i]).covers(a);
                assert(i != k);
                let i2 = if i < k { i } else { i - 1 };
                assert(t[i2] == s[i]);
                assert(t[i2].covers(a));
            }
        }
    } else {
        assert forall|i: int, j: int| 0 <= i < j < t.len() implies (#[trigger] t[i]).end() < (
        #[trigger] t[j]).base by {
            assert(s[i].end() < s[j].base);
        }
        assert forall|i: int| 0 <= i < t.len() implies 1 <= (#[trigger] t[i]).base && t[i].len > 0
            && t[i].end() <= limit by {
            assert(1 <= s[i].base);
        }
        assert forall|a: int| covered(t, a) == (covered(s, a) && !(p <= a < p + size)) by {
            if covered(t, a) {
                let i = choose|i: int| 0 <= i < t.len() && (#[trigger] t[i]).covers(a);
                assert(s[i].covers(a));
                if i < k {
                    assert(s[i].end() < s[k].base);
                } else if i > k {
                    assert(s[k].end() < s[i].base);
                }
            }
            if covered(s, a) && !(p <= a < p + size) {
                let i = choose|i: int| 0 <= i < s.len() && (#[trigger] s[i]).covers(a);
                assert(t[i].covers(a));
            }
        }
    }
    assert(free_set(t) =~= free_set(s) - span(p, size));
}

/// Hands the run `[ptr, ptr + size)` back to the free list and merges it
/// with the free extents that touch it.
///
/// The run is accepted when it is non-empty, lies inside the managed range
/// and holds no address that is free already; the list then holds the old
/// addresses and those of the run, again as a well-formed list. Otherwise
/// the list is left as it is and the result is `false`.
pub fn free(free_list: &mut FreeList, ptr: usize, size: usize) -> (ok: bool)
    requires
        old(free_list).wf(),
    ensures
        final(free_list).wf(),
        final(free_list).limit() == old(free_list).limit(),
        ok == can_release(old(free_list)@, old(free_list).limit(), ptr as int, size as int),
        ok ==> final(free_list)@ == released(
            old(free_list)@,
            old(free_list).limit(),
            ptr as int,
            size as int,
        ),
        ok ==> free_set(final(free_list)@) == free_set(old(free_list)@) + span(
            ptr as int,
            size as int,
        ),
        !ok ==> final(free_list)@ == old(free_list)@,
{
    let limit = free_list.limit;
    if size == 0 || ptr == 0 || ptr > limit || size > limit - ptr {
        return false;
    }
    let ghost before = free_list@;
    let n = free_list.extents.len();
    let mut i: usize = 0;
    while i < n && free_list.extents[i].base < ptr
        invariant
            i <= n,
            n == free_list.extents.len(),
            *free_list == *old(free_list),
            forall|j: int| 0 <= j < i ==> (#[trigger] free_list@[j]).base < ptr,
        decreases n - i,
    {
        i += 1;
    }
    proof {
        assert forall|j: int| i <= j < n implies ptr <= (#[trigger] before[j]).base by {
            if j > i {
                assert(before[i as int].end() < before[j].base);
            }
        }
    }
    let clear_before = i == 0 || free_list.extents[i - 1].base + free_list.extents[i - 1].len
        <= ptr;
    let clear_after = i == n || ptr + size <= free_list.extents[i].base;
    if !clear_before {
        proof {
            assert(before[i - 1].covers(ptr as int));
            assert(covered(before, ptr as int));
        }
        return false;
    }
    if !clear_after {
        proof {
            assert(before[i as int].covers(before[i as int].base as int));
            assert(covered(before, before[i as int].base as int));
        }
        return false;
    }
    proof {
        assert forall|a: int| ptr <= a < ptr + size implies !covered(before, a) by {
            if covered(before, a) {
                let j = choose|j: int| 0 <= j < before.len() && (#[trigger] before[j]).covers(a);
                if j < i - 1 {
                    assert(before[j].end() < before[i - 1].base);
                } else if j > i {
                    assert(before[i as int].end() < before[j].base);
                }
            }
        }
        lemma_spliced(before, limit as int, ptr as int, size as int, i as int);
    }
    let merge_prev = i > 0 && free_list.extents[i - 1].base + free_list.extents[i - 1].len == ptr;
    let merge_next = i < n && ptr + size == free_list.extents[i].base;
    if merge_prev && merge_next {
        let prev = free_list.extents[i - 1];
        let next = free_list.extents[i];
        free_list.extents.remove(i);
        free_list.extents.set(i - 1, Extent { base: prev.base, len: prev.len + size + next.len });
    } else if merge_prev {
        let prev = free_list.extents[i - 1];
        free_list.extents.set(i - 1, Extent { base: prev.base, len: prev.len + size });
    } else if merge_next {
        let next = free_list.extents[i];
        free_list.extents.set(i, Extent { base: ptr, len: size + next.len });
    } else {
        free_list.extents.insert(i, Extent { base: ptr, len: size });
    }
    proof {
        assert(free_list@ =~= spliced(before, ptr as int, size as int, i as int));
        let t = released(before, limit as int, ptr as int, size as int);
        lemma_canonical(free_list@, t, limit as int);
    }
    true
}

/// Handing back a releasable run gives a well-formed list that holds the
/// old addresses and those of the run.
pub proof fn lemma_released(s: Seq<Extent>, limit: int, ptr: int, size: int)
    requires
        well_formed(s, limit),
        can_release(s, limit, ptr, size),
    ensures
        well_formed(released(s, limit, ptr, size), limit),
        free_set(released(s, limit, ptr, size)) == free_set(s) + span(ptr, size),
{
    let i = lemma_place(s, limit, ptr);
    lemma_spliced(s, limit, ptr, size, i);
    let t = spliced(s, ptr, size, i);
    assert(well_formed(t, limit) && free_set(t) == free_set(s) + span(ptr, size));
}

/// Every address has a place in the address order of a well-formed list:
/// an index before which all extents begin below it, and from which on none
/// does.
proof fn lemma_place(s: Seq<Extent>, limit: int, ptr: int) -> (i: int)
    requires
        well_formed(s, limit),
    ensures
        0 <= i <= s.len(),
        forall|j: int| 0 <= j < i ==> (#[trigger] s[j]).base < ptr,
        forall|j: int| i <= j < s.len() ==> ptr <= (#[trigger] s[j]).base,
    decreases s.len(),
{
    if s.len() == 0 {
        0
    } else if s.last().base < ptr {
        assert forall|j: int| 0 <= j < s.len() implies (#[trigger] s[j]).base < ptr by {
            if j < s.len() - 1 {
                assert(s[j].end() < s[s.len() - 1].base);
            }
        }
        s.len() as int
    } else {
        let front = s.drop_last();
        assert forall|j: int| 0 <= j < front.len() implies 1 <= (#[trigger] front[j]).base
            && front[j].len > 0 && front[j].end() <= limit by {
            assert(front[j] == s[j]);
        }
        assert forall|j: int, k: int| 0 <= j < k < front.len() implies (#[trigger] front[j]).end()
            < (#[trigger] front[k]).base by {
            assert(front[j] == s[j]);
            assert(front[k] == s[k]);
        }
        let i = lemma_place(front, limit, ptr);
        assert forall|j: int| 0 <= j < i implies (#[trigger] s[j]).base < ptr by {
            assert(front[j] == s[j]);
        }
        assert forall|j: int| i <= j < s.len() implies ptr <= (#[trigger] s[j]).base by {
            if j < s.len() - 1 {
                assert(front[j] == s[j]);
            }
        }
        i
    }
}

/// The list that `free` builds when the run `[ptr, ptr + size)` belongs
/// before index `i` of `s`: the run joined with the neighbours it touches.
spec fn spliced(s: Seq<Extent>, ptr: int, size: int, i: int) -> Seq<Extent> {
    let merge_prev = i > 0 && s[i - 1].end() == ptr;
    let merge_next = i < s.len() && ptr + size == s[i].base;
    if merge_prev && merge_next {
        s.remove(i).update(
            i - 1,
            Extent { base: s[i - 1].base, len: (s[i - 1].len + size + s[i].len) as usize },
        )
    } else if merge_prev {
        s.update(i - 1, Extent { base: s[i - 1].base, len: (s[i - 1].len + size) as usize })
    } else if merge_next {
        s.update(i, Extent { base: ptr as usize, len: (size + s[i].len) as usize })
    } else {
        s.insert(i, Extent { base: ptr as usize, len: size as usize })
    }
}

/// The place of a run in the address order of `s`: the extents before
/// index `i` end at or before `ptr`, those from `i` on begin at or after
/// the end of the run.
spec fn fits_between(s: Seq<Extent>, ptr: int, size: int, i: int) -> bool {
    &&& 0 <= i <= s.len()
    &&& forall|j: int| 0 <= j < i ==> (#[trigger] s[j]).end() <= ptr
    &&& forall|j: int| i <= j < s.len() ==> ptr + size <= (#[trigger] s[j]).base
}

/// A releasable run lies between the extents that begin before it and
/// those that do not.
proof fn lemma_fits_between(s: Seq<Extent>, limit: int, ptr: int, size: int, i: int)
    requires
        well_formed(s, limit),
        can_release(s, limit, ptr, size),
        0 <= i <= s.len(),
        forall|j: int| 0 <= j < i ==> (#[trigger] s[j]).base < ptr,
        forall|j: int| i <= j < s.len() ==> ptr <= (#[trigger] s[j]).base,
    ensures
        fits_between(s, ptr, size, i),
{
    assert forall|j: int| 0 <= j < i implies (#[trigger] s[j]).end() <= ptr by {
        if s[j].end() > ptr {
            assert(s[j].covers(ptr));
            assert(covered(s, ptr));
        }
    }
    assert forall|j: int| i <= j < s.len() implies ptr + size <= (#[trigger] s[j]).base by {
        if ptr + size > s[j].base {
            assert(s[j].covers(s[j].base as int));
            assert(covered(s, s[j].base as int));
        }
    }
}

/// Splicing a releasable run into a well-formed list at its place in the
/// address order gives a well-formed list with the run's addresses added.
proof fn lemma_spliced(s: Seq<Extent>, limit: int, ptr: int, size: int, i: int)
    requires
        well_formed(s, limit),
        can_release(s, limit, ptr, size),
        0 <= i <= s.len(),
        forall|j: int| 0 <= j < i ==> (#[trigger] s[j]).base < ptr,
        forall|j: int| i <= j < s.len() ==> ptr <= (#[trigger] s[j]).base,
    ensures
        well_formed(spliced(s, ptr, size, i), limit),
        free_set(spliced(s, ptr, size, i)) == free_set(s) + span(ptr, size),
{
    lemma_fits_between(s, limit, ptr, size, i);
    let merge_prev = i > 0 && s[i - 1].end() == ptr;
    let merge_next = i < s.len() && ptr + size == s[i].base;
    if merge_prev && merge_next {
        lemma_splice_both(s, limit, ptr, size, i);
    } else if merge_prev {
        lemma_splice_prev(s, limit, ptr, size, i);
    } else if merge_next {
        lemma_splice_next(s, limit, ptr, size, i);
    } else {
        lemma_splice_alone(s, limit, ptr, size, i);
    }
    let t = spliced(s, ptr, size, i);
    assert(free_set(t) =~= free_set(s) + span(ptr, size));
}

/// The run touches both neighbours: the three become one extent.
proof fn lemma_splice_both(s: Seq<Extent>, limit: int, ptr: int, size: int, i: int)
    requires
        well_formed(s, limit),
        size > 0,
        fits_between(s, ptr, size, i),
        0 < i < s.len(),
        s[i - 1].end() == ptr,
        ptr + size == s[i].base,
    ensures
        well_formed(spliced(s, ptr, size, i), limit),
        forall|a: int|
            covered(spliced(s, ptr, size, i), a) == (covered(s, a) || ptr <= a < ptr + size),
{
    let t = spliced(s, ptr, size, i);
    let joined = Extent { base: s[i - 1].base, len: (s[i - 1].len + size + s[i].len) as usize };
    assert(1 <= s[i - 1].base && s[i].end() <= limit);
    assert(t.len() == s.len() - 1);
    assert forall|j: int| 0 <= j < t.len() implies (#[trigger] t[j]) == (if j < i - 1 {
        s[j]
    } else if j == i - 1 {
        joined
    } else {
        s[j + 1]
    }) by {}
    assert forall|j: int| 0 <= j < t.len() implies 1 <= (#[trigger] t[j]).base && t[j].len > 0
        && t[j].end() <= limit by {
        if j < i - 1 {
            assert(1 <= s[j].base);
        } else if j > i - 1 {
            assert(1 <= s[j + 1].base);
        }
    }
    assert forall|j: int, k: int| 0 <= j < k < t.len() implies (#[trigger] t[j]).end() < (
    #[trigger] t[k]).base by {
        if j < i - 1 {
            if k == i - 1 {
                assert(s[j].end() < s[i - 1].base);
            } else {
                assert(s[j].end() < s[k + 1].base);
            }
        } else if j == i - 1 {
            assert(s[i].end() < s[k + 1].base);
        } else {
            assert(s[j + 1].end() < s[k + 1].base);
        }
    }
    assert forall|a: int| covered(t, a) == (covered(s, a) || ptr <= a < ptr + size) by {
        if covered(t, a) {
            let j = choose|j: int| 0 <= j < t.len() && (#[trigger] t[j]).covers(a);
            if j < i - 1 {
                assert(s[j].covers(a));
            } else if j == i - 1 {
                if a < ptr {
                    assert(s[i - 1].covers(a));
                } else if a >= ptr + size {
                    assert(s[i].covers(a));
                }
            } else {
                assert(s[j + 1].covers(a));
            }
        }
        if covered(s, a) {
            let j = choose|j: int| 0 <= j < s.len() && (#[trigger] s[j]).covers(a);
            if j < i - 1 {
                assert(t[j].covers(a));
            } else if j <= i {
                assert(t[i - 1].covers(a));
            } else {
                assert(t[j - 1].covers(a));
            }
        }
        if ptr <= a < ptr + size {
            assert(t[i - 1].covers(a));
        }
    }
}

/// The run touches only the extent before it, which grows by the run.
proof fn lemma_splice_prev(s: Seq<Extent>, limit: int, ptr: int, size: int, i: int)
    requires
        well_formed(s, limit),
        size > 0,
        ptr + size <= limit,
        fits_between(s, ptr, size, i),
        0 < i,
        s[i - 1].end() == ptr,
        !(i < s.len() && ptr + size == s[i].base),
    ensures
        well_formed(spliced(s, ptr, size, i), limit),
        forall|a: int|
            covered(spliced(s, ptr, size, i), a) == (covered(s, a) || ptr <= a < ptr + size),
{
    let t = spliced(s, ptr, size, i);
    assert(1 <= s[i - 1].base);
    assert forall|j: int| 0 <= j < t.len() implies 1 <= (#[trigger] t[j]).base && t[j].len > 0
        && t[j].end() <= limit by {
        assert(1 <= s[j].base);
    }
    assert forall|j: int, k: int| 0 <= j < k < t.len() implies (#[trigger] t[j]).end() < (
    #[trigger] t[k]).base by {
        assert(s[j].end() < s[k].base);
        if j == i - 1 {
            assert(ptr + size <= s[k].base);
            if k > i {
                assert(s[i].end() < s[k].base);
            }
        }
    }
    assert forall|a: int| covered(t, a) == (covered(s, a) || ptr <= a < ptr + size) by {
        if covered(t, a) {
            let j = choose|j: int| 0 <= j < t.len() && (#[trigger] t[j]).covers(a);
            if j != i - 1 || a < ptr {
                assert(s[j].covers(a));
            }
        }
        if covered(s, a) {
            let j = choose|j: int| 0 <= j < s.len() && (#[trigger] s[j]).covers(a);
            assert(t[j].covers(a));
        }
        if ptr <= a < ptr + size {
            assert(t[i - 1].covers(a));
        }
    }
}

/// The run touches only the extent after it, which now begins at the run.
proof fn lemma_splice_next(s: Seq<Extent>, limit: int, ptr: int, size: int, i: int)
    requires
        well_formed(s, limit),
        size > 0,
        1 <= ptr,
        fits_between(s, ptr, size, i),
        i < s.len(),
        ptr + size == s[i].base,
        !(i > 0 && s[i - 1].end() == ptr),
    ensures
        well_formed(spliced(s, ptr, size, i), limit),
        forall|a: int|
            covered(spliced(s, ptr, size, i), a) == (covered(s, a) || ptr <= a < ptr + size),
{
    let t = spliced(s, ptr, size, i);
    assert(s[i].end() <= limit);
    assert forall|j: int| 0 <= j < t.len() implies 1 <= (#[trigger] t[j]).base && t[j].len > 0
        && t[j].end() <= limit by {
        assert(1 <= s[j].base);
    }
    assert forall|j: int, k: int| 0 <= j < k < t.len() implies (#[trigger] t[j]).end() < (
    #[trigger] t[k]).base by {
        assert(s[j].end() < s[k].base);
        if k == i {
            assert(s[j].end() <= ptr);
            if j < i - 1 {
                assert(s[j].end() < s[i - 1].base);
            }
        }
    }
    assert forall|a: int| covered(t, a) == (covered(s, a) || ptr <= a < ptr + size) by {
        if covered(t, a) {
            let j = choose|j: int| 0 <= j < t.len() && (#[trigger] t[j]).covers(a);
            if j != i || a >= ptr + size {
                assert(s[j].covers(a));
            }
        }
        if covered(s, a) {
            let j = choose|j: int| 0 <= j < s.len() && (#[trigger] s[j]).covers(a);
            assert(t[j].covers(a));
        }
        if ptr <= a < ptr + size {
            assert(t[i].covers(a));
        }
    }
}

/// The run touches neither neighbour and becomes an extent of its own.
proof fn lemma_splice_alone(s: Seq<Extent>, limit: int, ptr: int, size: int, i: int)
    requires
        well_formed(s, limit),
        size > 0,
        1 <= ptr,
        ptr + size <= limit,
        fits_between(s, ptr, size, i),
        !(i > 0 && s[i - 1].end() == ptr),
        !(i < s.len() && ptr + size == s[i].base),
    ensures
        well_formed(spliced(s, ptr, size, i), limit),
        forall|a: int|
            covered(spliced(s, ptr, size, i), a) == (covered(s, a) || ptr <= a < ptr + size),
{
    let t = spliced(s, ptr, size, i);
    let run = Extent { base: ptr as usize, len: size as usize };
    assert(t.len() == s.len() + 1);
    assert forall|j: int| 0 <= j < t.len() implies (#[trigger] t[j]) == (if j < i {
        s[j]
    } else if j == i {
        run
    } else {
        s[j - 1]
    }) by {}
    assert forall|j: int| 0 <= j < t.len() implies 1 <= (#[trigger] t[j]).base && t[j].len > 0
        && t[j].end() <= limit by {
        if j < i {
            assert(1 <= s[j].base);
        } else if j > i {
            assert(1 <= s[j - 1].base);
        }
    }
    assert forall|j: int, k: int| 0 <= j < k < t.len() implies (#[trigger] t[j]).end() < (
    #[trigger] t[k]).base by {
        if k < i {
            assert(s[j].end() < s[k].base);
        } else if k == i {
            assert(s[j].end() <= ptr);
            if j < i - 1 {
                assert(s[j].end() < s[i - 1].base);
            }
        } else if j < i {
            assert(s[j].end() <= ptr);
            assert(ptr + size <= s[k - 1].base);
        } else if j == i {
            assert(ptr + size <= s[k - 1].base);
            if k - 1 > i {
                assert(s[i].end() < s[k - 1].base);
            }
        } else {
            assert(s[j - 1].end() < s[k - 1].base);
        }
    }
    assert forall|a: int| covered(t, a) == (covered(s, a) || ptr <= a < ptr + size) by {
        if covered(t, a) {
            let j = choose|j: int| 0 <= j < t.len() && (#[trigger] t[j]).covers(a);
            if j < i {
                assert(s[j].covers(a));
            } else if j > i {
                assert(s[j - 1].covers(a));
            }
        }
        if covered(s, a) {
            let j = choose|j: int| 0 <= j < s.len() && (#[trigger] s[j]).covers(a);
            if j < i {
                assert(t[j].covers(a));
            } else {
                assert(t[j + 1].covers(a));
            }
        }
        if ptr <= a < ptr + size {
            assert(t[i].covers(a));
        }
    }
}

} // verus!
