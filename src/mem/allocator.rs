//! Tracks which parts of the guest address space are free or in use, and
//! makes allocations and fixed-address reservations from it.
use crate::mem::{MAIN_THREAD_STACK_LOW_END, MAIN_THREAD_STACK_SIZE, NULL_PAGE_SIZE};
use std::collections::HashMap;
use vstd::prelude::*;

verus! {

broadcast use vstd::std_specs::hash::group_hash_axioms;

/// Number of addresses in the guest address space.
pub open spec fn space_size() -> int {
    0x1_0000_0000
}

/// A span of addresses, as a mathematical value.
pub ghost struct Region {
    pub base: int,
    pub size: int,
}

impl Region {
    /// One past the last address of the span.
    pub open spec fn end(self) -> int {
        self.base + self.size
    }

    /// Non-empty, and inside the address space.
    pub open spec fn wf(self) -> bool {
        &&& 0 <= self.base
        &&& 0 < self.size < space_size()
        &&& self.end() <= space_size()
    }

    pub open spec fn contains(self, addr: int) -> bool {
        self.base <= addr < self.end()
    }

    /// Every address of `inner` is an address of `self`.
    pub open spec fn encloses(self, inner: Region) -> bool {
        self.base <= inner.base && inner.end() <= self.end()
    }

    pub open spec fn disjoint(self, other: Region) -> bool {
        self.end() <= other.base || other.end() <= self.base
    }
}

/// The part of `outer` strictly before `inner`, if there is one.
pub open spec fn before_part(outer: Region, inner: Region) -> Option<Region> {
    if inner.base > outer.base {
        Some(Region { base: outer.base, size: inner.base - outer.base })
    } else {
        None
    }
}

/// The part of `outer` strictly after `inner`, if there is one.
pub open spec fn after_part(outer: Region, inner: Region) -> Option<Region> {
    if outer.end() > inner.end() {
        Some(Region { base: inner.end(), size: outer.end() - inner.end() })
    } else {
        None
    }
}

pub open spec fn opt_seq(o: Option<Region>) -> Seq<Region> {
    match o {
        Some(r) => seq![r],
        None => Seq::empty(),
    }
}

/// A non-empty range of bytes in the guest address space.
#[derive(PartialEq, Eq, Structural, Copy, Clone, Debug)]
pub struct Chunk {
    base: u32,
    size: u32,
}

impl View for Chunk {
    type V = Region;

    closed spec fn view(&self) -> Region {
        Region { base: self.base as int, size: self.size as int }
    }
}

pub open spec fn opt_view(o: Option<Chunk>) -> Option<Region> {
    match o {
        Some(c) => Some(c@),
        None => None,
    }
}

impl Chunk {
    #[verifier::type_invariant]
    spec fn inv(self) -> bool {
        self.size > 0 && self.base + self.size <= space_size()
    }

    pub fn new(base: u32, size: u32) -> (r: Chunk)
        requires
            size > 0,
            base + size <= space_size(),
        ensures
            r@ == (Region { base: base as int, size: size as int }),
    {
        Chunk { base, size }
    }

    pub fn base(&self) -> (r: u32)
        ensures
            r == self@.base,
    {
        self.base
    }

    pub fn size(&self) -> (r: u32)
        ensures
            r == self@.size,
    {
        self.size
    }

    pub fn last_byte(&self) -> (r: u32)
        ensures
            r == self@.end() - 1,
    {
        proof {
            use_type_invariant(self);
        }
        self.base + (self.size - 1)
    }

    pub fn contains(&self, addr: u32) -> (r: bool)
        ensures
            r == self@.contains(addr as int),
    {
        self.base <= addr && addr <= self.last_byte()
    }

    /// Splits `self` into the parts before and after `middle`, or returns
    /// `None` when `middle` does not lie entirely inside `self`.
    pub fn trisect_by(&self, middle: Chunk) -> (r: Option<(Option<Chunk>, Option<Chunk>)>)
        ensures
            r is Some <==> self@.encloses(middle@),
            r matches Some((before, after)) ==> {
                &&& opt_view(before) == before_part(self@, middle@)
                &&& opt_view(after) == after_part(self@, middle@)
            },
    {
        proof {
            use_type_invariant(self);
            use_type_invariant(middle);
        }
        if !self.contains(middle.base) || !self.contains(middle.last_byte()) {
            return None;
        }
        let left_size = middle.base - self.base;
        let left = if left_size == 0 {
            None
        } else {
            Some(Chunk::new(self.base, left_size))
        };
        let right_size = self.last_byte() - middle.last_byte();
        let right = if right_size == 0 {
            None
        } else {
            Some(Chunk::new(middle.last_byte() + 1, right_size))
        };
        Some((left, right))
    }
}


/// Why an allocator operation could not be carried out.
#[derive(PartialEq, Eq, Structural, Copy, Clone, Debug)]
pub enum AllocError {
    /// No free region is large enough for the request.
    OutOfMemory,
    /// The address is not the base of a region in use.
    UnknownAllocation,
    /// The requested region does not lie inside a single free region.
    NotFree,
}

/// The size actually granted for a request of `requested` bytes: at least
/// 16, and rounded up to a multiple of 16.
pub open spec fn granted_size(requested: int) -> int {
    if requested <= 16 {
        16
    } else if requested % 16 == 0 {
        requested
    } else {
        requested + 16 - requested % 16
    }
}

/// The region spanning `a` and `b`, which are adjacent.
pub open spec fn merge(a: Region, b: Region) -> Region {
    Region { base: if a.base <= b.base { a.base } else { b.base }, size: a.size + b.size }
}

/// `other` lies directly after `c`, or (when `allow_left_grow`) directly
/// before it, and the two together still fit a chunk.
pub open spec fn neighbours(c: Region, other: Region, allow_left_grow: bool) -> bool {
    &&& other.base == c.end() || (allow_left_grow && c.base == other.end())
    &&& c.size + other.size < space_size()
}

/// `i` is the first index of `free` that holds a neighbour of `c`.
pub open spec fn is_first_neighbour(
    free: Seq<Region>,
    c: Region,
    allow_left_grow: bool,
    i: int,
) -> bool {
    &&& 0 <= i < free.len()
    &&& neighbours(c, free[i], allow_left_grow)
    &&& forall|j: int| 0 <= j < i ==> !neighbours(c, #[trigger] free[j], allow_left_grow)
}

pub open spec fn has_neighbour(free: Seq<Region>, c: Region, allow_left_grow: bool) -> bool {
    exists|i: int| is_first_neighbour(free, c, allow_left_grow, i)
}

/// The free region that an allocation of `granted` bytes takes: the
/// last-listed exact fit if there is one; otherwise the smallest larger
/// region, the last-listed one among equals.
pub open spec fn is_alloc_choice(free: Seq<Region>, granted: int, i: int) -> bool {
    &&& 0 <= i < free.len()
    &&& {
        ||| {
            &&& free[i].size == granted
            &&& forall|j: int| i < j < free.len() ==> (#[trigger] free[j]).size != granted
        }
        ||| {
            &&& forall|j: int| 0 <= j < free.len() ==> (#[trigger] free[j]).size != granted
            &&& free[i].size > granted
            &&& forall|j: int|
                0 <= j < free.len() && (#[trigger] free[j]).size > granted ==> {
                    &&& free[j].size >= free[i].size
                    &&& j > i ==> free[j].size > free[i].size
                }
        }
    }
}

/// The allocator's bookkeeping as mathematical values: the free list in
/// order, and the regions in use keyed by their base address.
pub ghost struct AllocState {
    pub free: Seq<Region>,
    pub used: Map<u32, Region>,
}

impl AllocState {
    pub open spec fn free_covers(self, addr: int) -> bool {
        exists|i: int| 0 <= i < self.free.len() && #[trigger] self.free[i].contains(addr)
    }

    pub open spec fn used_covers(self, addr: int) -> bool {
        exists|k: u32| self.used.contains_key(k) && #[trigger] self.used[k].contains(addr)
    }

    pub open spec fn covered(self, addr: int) -> bool {
        self.free_covers(addr) || self.used_covers(addr)
    }

    /// Every region is well formed and every used region is keyed by its
    /// base; free regions are pairwise disjoint, used regions are pairwise
    /// disjoint, and no free region meets a used one.
    pub open spec fn parts_ok(self) -> bool {
        &&& forall|i: int| 0 <= i < self.free.len() ==> (#[trigger] self.free[i]).wf()
        &&& forall|k: u32|
            #[trigger] self.used.contains_key(k) ==> self.used[k].wf() && self.used[k].base
                == k
        &&& forall|i: int, j: int|
            0 <= i < self.free.len() && 0 <= j < self.free.len() && i != j
                ==> (#[trigger] self.free[i]).disjoint(#[trigger] self.free[j])
        &&& forall|k1: u32, k2: u32|
            self.used.contains_key(k1) && self.used.contains_key(k2) && k1 != k2
                ==> (#[trigger] self.used[k1]).disjoint(#[trigger] self.used[k2])
        &&& forall|i: int, k: u32|
            0 <= i < self.free.len() && self.used.contains_key(k)
                ==> (#[trigger] self.free[i]).disjoint(#[trigger] self.used[k])
    }

    /// The global invariant: the free and used regions are well formed and
    /// pairwise disjoint, and together they cover the whole address space.
    pub open spec fn wf(self) -> bool {
        &&& self.parts_ok()
        &&& forall|a: int| 0 <= a < space_size() ==> #[trigger] self.covered(a)
    }

    /// The invariant while the region `e` is held by neither set: `e` is
    /// disjoint from both, and the sets with `e` cover the address space.
    pub open spec fn wf_detached(self, e: Region) -> bool {
        &&& self.parts_ok()
        &&& e.wf()
        &&& forall|i: int| 0 <= i < self.free.len() ==> e.disjoint(#[trigger] self.free[i])
        &&& forall|k: u32| #[trigger] self.used.contains_key(k) ==> e.disjoint(self.used[k])
        &&& forall|a: int| 0 <= a < space_size() ==> #[trigger] self.covered(a) || e.contains(a)
    }

    pub open spec fn with_free(self, free: Seq<Region>) -> AllocState {
        AllocState { free, used: self.used }
    }

    pub open spec fn with_used(self, used: Map<u32, Region>) -> AllocState {
        AllocState { free: self.free, used }
    }

    /// The state after the used region `c` is cut out of the free region
    /// at index `i`; what is left of that region goes to the end of the list.
    pub open spec fn carve(self, i: int, c: Region) -> AllocState {
        AllocState {
            free: self.free.remove(i) + opt_seq(before_part(self.free[i], c)) + opt_seq(
                after_part(self.free[i], c),
            ),
            used: self.used.insert(c.base as u32, c),
        }
    }

    pub open spec fn has_fit(self, granted: int) -> bool {
        exists|i: int| 0 <= i < self.free.len() && #[trigger] self.free[i].size >= granted
    }

    pub open spec fn encloses_at(self, c: Region, i: int) -> bool {
        0 <= i < self.free.len() && self.free[i].encloses(c)
    }

    pub open spec fn can_reserve(self, c: Region) -> bool {
        exists|i: int| #[trigger] self.encloses_at(c, i)
    }

    /// The free list after the region `c` is given back.
    pub open spec fn free_after_release(self, c: Region, post_free: Seq<Region>) -> bool {
        if has_neighbour(self.free, c, true) {
            exists|i: int|
                is_first_neighbour(self.free, c, true, i) && post_free == self.free.remove(i).push(
                    merge(c, self.free[i]),
                )
        } else {
            post_free == self.free.push(c)
        }
    }
}


/// Taking the free region at index `i` off the list leaves it detached.
proof fn lemma_detach_free(s: AllocState, i: int)
    requires
        s.wf(),
        0 <= i < s.free.len(),
    ensures
        s.with_free(s.free.remove(i)).wf_detached(s.free[i]),
{
    let t = s.with_free(s.free.remove(i));
    let e = s.free[i];
    s.free.remove_ensures(i);
    assert forall|a: int, b: int|
        0 <= a < t.free.len() && 0 <= b < t.free.len() && a != b implies (
        #[trigger] t.free[a]).disjoint(#[trigger] t.free[b]) by {
        let oa = if a < i { a } else { a + 1 };
        let ob = if b < i { b } else { b + 1 };
        assert(t.free[a] == s.free[oa] && t.free[b] == s.free[ob]);
    }
    assert forall|a: int, k: u32|
        0 <= a < t.free.len() && t.used.contains_key(k) implies (#[trigger] t.free[a]).disjoint(
        #[trigger] t.used[k],
    ) by {
        let oa = if a < i { a } else { a + 1 };
        assert(t.free[a] == s.free[oa]);
    }
    assert forall|a: int| 0 <= a < t.free.len() implies e.disjoint(#[trigger] t.free[a]) by {
        let oa = if a < i { a } else { a + 1 };
        assert(t.free[a] == s.free[oa]);
    }
    assert forall|x: int| 0 <= x < space_size() implies #[trigger] t.covered(x) || e.contains(
        x,
    ) by {
        assert(s.covered(x));
        if s.free_covers(x) {
            let j = choose|j: int| 0 <= j < s.free.len() && #[trigger] s.free[j].contains(x);
            if j < i {
                assert(t.free[j].contains(x));
            } else if j > i {
                assert(t.free[j - 1].contains(x));
            }
        } else {
            let k = choose|k: u32| s.used.contains_key(k) && #[trigger] s.used[k].contains(x);
            assert(t.used[k].contains(x));
        }
    }
}

/// Taking the used region keyed `k` out of the map leaves it detached.
proof fn lemma_detach_used(s: AllocState, k: u32)
    requires
        s.wf(),
        s.used.contains_key(k),
    ensures
        s.with_used(s.used.remove(k)).wf_detached(s.used[k]),
{
    let t = s.with_used(s.used.remove(k));
    let e = s.used[k];
    assert forall|x: int| 0 <= x < space_size() implies #[trigger] t.covered(x) || e.contains(
        x,
    ) by {
        assert(s.covered(x));
        if s.free_covers(x) {
            let j = choose|j: int| 0 <= j < s.free.len() && #[trigger] s.free[j].contains(x);
            assert(t.free[j].contains(x));
        } else {
            let k2 = choose|k2: u32| s.used.contains_key(k2) && #[trigger] s.used[k2].contains(x);
            if k2 != k {
                assert(t.used[k2].contains(x));
            }
        }
    }
}

/// A detached region goes back onto the end of the free list.
proof fn lemma_attach_free(s: AllocState, e: Region)
    requires
        s.wf_detached(e),
    ensures
        s.with_free(s.free.push(e)).wf(),
{
    let t = s.with_free(s.free.push(e));
    let n = s.free.len() as int;
    assert(t.free[n] == e);
    assert forall|a: int| 0 <= a < n implies t.free[a] == s.free[a] by {}
    assert forall|a: int, b: int|
        0 <= a < t.free.len() && 0 <= b < t.free.len() && a != b implies (
        #[trigger] t.free[a]).disjoint(#[trigger] t.free[b]) by {
        if a < n && b < n {
            assert(s.free[a].disjoint(s.free[b]));
        } else if a < n {
            assert(e.disjoint(s.free[a]));
        } else {
            assert(e.disjoint(s.free[b]));
        }
    }
    assert forall|x: int| 0 <= x < space_size() implies #[trigger] t.covered(x) by {
        if s.covered(x) {
            if s.free_covers(x) {
                let j = choose|j: int| 0 <= j < s.free.len() && #[trigger] s.free[j].contains(x);
                assert(t.free[j].contains(x));
            } else {
                let k = choose|k: u32| s.used.contains_key(k) && #[trigger] s.used[k].contains(x);
                assert(t.used[k].contains(x));
            }
        } else {
            assert(t.free[n].contains(x));
        }
    }
}

/// A detached region is recorded as used, keyed by its base.
proof fn lemma_attach_used(s: AllocState, e: Region)
    requires
        s.wf_detached(e),
    ensures
        !s.used.contains_key(e.base as u32),
        s.with_used(s.used.insert(e.base as u32, e)).wf(),
{
    let key = e.base as u32;
    let t = s.with_used(s.used.insert(key, e));
    if s.used.contains_key(key) {
        assert(s.used[key].contains(e.base));
        assert(e.disjoint(s.used[key]));
    }
    assert forall|k1: u32, k2: u32|
        t.used.contains_key(k1) && t.used.contains_key(k2) && k1 != k2 implies (
        #[trigger] t.used[k1]).disjoint(#[trigger] t.used[k2]) by {
        if k1 != key && k2 != key {
            assert(s.used[k1].disjoint(s.used[k2]));
        } else if k1 == key {
            assert(e.disjoint(s.used[k2]));
        } else {
            assert(e.disjoint(s.used[k1]));
        }
    }
    assert forall|a: int, k: u32|
        0 <= a < t.free.len() && t.used.contains_key(k) implies (#[trigger] t.free[a]).disjoint(
        #[trigger] t.used[k],
    ) by {
        if k != key {
            assert(s.free[a].disjoint(s.used[k]));
        } else {
            assert(e.disjoint(s.free[a]));
        }
    }
    assert forall|x: int| 0 <= x < space_size() implies #[trigger] t.covered(x) by {
        if s.covered(x) {
            if s.free_covers(x) {
                let j = choose|j: int| 0 <= j < s.free.len() && #[trigger] s.free[j].contains(x);
                assert(t.free[j].contains(x));
            } else {
                let k = choose|k: u32| s.used.contains_key(k) && #[trigger] s.used[k].contains(x);
                assert(t.used[k].contains(x));
            }
        } else {
            assert(t.used[key].contains(x));
        }
    }
}


/// When the detached region `e` is made of the two parts `p` and `q`,
/// `p` can go onto the free list while `q` stays detached.
proof fn lemma_push_part(s: AllocState, e: Region, p: Region, q: Region)
    requires
        s.wf_detached(e),
        p.wf(),
        q.wf(),
        p.disjoint(q),
        e.encloses(p),
        e.encloses(q),
        forall|x: int| e.contains(x) ==> p.contains(x) || q.contains(x),
    ensures
        s.with_free(s.free.push(p)).wf_detached(q),
{
    let t = s.with_free(s.free.push(p));
    let n = s.free.len() as int;
    assert(t.free[n] == p);
    assert forall|a: int| 0 <= a < n implies t.free[a] == s.free[a] by {}
    assert forall|a: int, b: int|
        0 <= a < t.free.len() && 0 <= b < t.free.len() && a != b implies (
        #[trigger] t.free[a]).disjoint(#[trigger] t.free[b]) by {
        if a < n && b < n {
            assert(s.free[a].disjoint(s.free[b]));
        } else if a < n {
            assert(e.disjoint(s.free[a]));
        } else {
            assert(e.disjoint(s.free[b]));
        }
    }
    assert forall|a: int, k: u32|
        0 <= a < t.free.len() && t.used.contains_key(k) implies (#[trigger] t.free[a]).disjoint(
        #[trigger] t.used[k],
    ) by {
        if a < n {
            assert(s.free[a].disjoint(s.used[k]));
        } else {
            assert(e.disjoint(s.used[k]));
        }
    }
    assert forall|a: int| 0 <= a < t.free.len() implies q.disjoint(#[trigger] t.free[a]) by {
        if a < n {
            assert(e.disjoint(s.free[a]));
        }
    }
    assert forall|x: int| 0 <= x < space_size() implies #[trigger] t.covered(x) || q.contains(
        x,
    ) by {
        if s.covered(x) {
            if s.free_covers(x) {
                let j = choose|j: int| 0 <= j < s.free.len() && #[trigger] s.free[j].contains(x);
                assert(t.free[j].contains(x));
            } else {
                let k = choose|k: u32| s.used.contains_key(k) && #[trigger] s.used[k].contains(x);
                assert(t.used[k].contains(x));
            }
        } else if p.contains(x) {
            assert(t.free[n].contains(x));
        }
    }
}

/// Merging the detached region `e` with its free neighbour at index `i`
/// leaves the merged region detached.
proof fn lemma_combine(s: AllocState, e: Region, i: int, allow_left_grow: bool)
    requires
        s.wf_detached(e),
        0 <= i < s.free.len(),
        neighbours(e, s.free[i], allow_left_grow),
    ensures
        s.with_free(s.free.remove(i)).wf_detached(merge(e, s.free[i])),
{
    let t = s.with_free(s.free.remove(i));
    let o = s.free[i];
    let m = merge(e, o);
    s.free.remove_ensures(i);
    assert forall|a: int, b: int|
        0 <= a < t.free.len() && 0 <= b < t.free.len() && a != b implies (
        #[trigger] t.free[a]).disjoint(#[trigger] t.free[b]) by {
        let oa = if a < i { a } else { a + 1 };
        let ob = if b < i { b } else { b + 1 };
        assert(t.free[a] == s.free[oa] && t.free[b] == s.free[ob]);
    }
    assert forall|a: int, k: u32|
        0 <= a < t.free.len() && t.used.contains_key(k) implies (#[trigger] t.free[a]).disjoint(
        #[trigger] t.used[k],
    ) by {
        let oa = if a < i { a } else { a + 1 };
        assert(t.free[a] == s.free[oa]);
    }
    assert forall|a: int| 0 <= a < t.free.len() implies m.disjoint(#[trigger] t.free[a]) by {
        let oa = if a < i { a } else { a + 1 };
        assert(t.free[a] == s.free[oa]);
        assert(o.disjoint(s.free[oa]));
        assert(e.disjoint(s.free[oa]));
    }
    assert forall|k: u32| #[trigger] t.used.contains_key(k) implies m.disjoint(t.used[k]) by {
        assert(o.disjoint(s.used[k]));
        assert(e.disjoint(s.used[k]));
    }
    assert forall|x: int| 0 <= x < space_size() implies #[trigger] t.covered(x) || m.contains(
        x,
    ) by {
        if s.covered(x) {
            if s.free_covers(x) {
                let j = choose|j: int| 0 <= j < s.free.len() && #[trigger] s.free[j].contains(x);
                if j < i {
                    assert(t.free[j].contains(x));
                } else if j > i {
                    assert(t.free[j - 1].contains(x));
                }
            } else {
                let k = choose|k: u32| s.used.contains_key(k) && #[trigger] s.used[k].contains(x);
                assert(t.used[k].contains(x));
            }
        }
    }
}


/// `reserve` of the region `c` took the state `pre` to `post` with result `r`:
/// it succeeds exactly when one free region encloses `c`, and then cuts `c`
/// out of that region; otherwise nothing changes.
pub open spec fn reserve_step(
    pre: AllocState,
    c: Region,
    r: Result<(), AllocError>,
    post: AllocState,
) -> bool {
    if pre.can_reserve(c) {
        &&& r is Ok
        &&& exists|i: int| #[trigger] pre.encloses_at(c, i) && post == pre.carve(i, c)
    } else {
        r == Err::<(), AllocError>(AllocError::NotFree) && post == pre
    }
}

/// `allocate` of `size` bytes took `pre` to `post` with result `r`: it succeeds
/// exactly when some free region holds the granted size, and then cuts a
/// region of that size from the start of the chosen free region.
pub open spec fn alloc_step(
    pre: AllocState,
    size: int,
    r: Result<u32, AllocError>,
    post: AllocState,
) -> bool {
    let g = granted_size(size);
    if pre.has_fit(g) {
        exists|i: int|
            #[trigger] is_alloc_choice(pre.free, g, i) && r == Ok::<u32, AllocError>(pre.free[i].base as u32) && post
                == pre.carve(i, Region { base: pre.free[i].base, size: g })
    } else {
        r == Err::<u32, AllocError>(AllocError::OutOfMemory) && post == pre
    }
}

/// `free` of `base` took `pre` to `post` with result `r`: it succeeds exactly
/// when `base` is the base of a used region, returns that region's size, and
/// gives the region back to the free list, merged with at most one neighbour.
pub open spec fn free_step(
    pre: AllocState,
    base: u32,
    r: Result<u32, AllocError>,
    post: AllocState,
) -> bool {
    if pre.used.contains_key(base) {
        &&& r == Ok::<u32, AllocError>(pre.used[base].size as u32)
        &&& post.used == pre.used.remove(base)
        &&& pre.free_after_release(pre.used[base], post.free)
    } else {
        r == Err::<u32, AllocError>(AllocError::UnknownAllocation) && post == pre
    }
}

/// Tracks which memory is free and which is in use, and makes allocations
/// from it.
#[derive(Debug)]
pub struct Allocator {
    unused_chunks: Vec<Chunk>,
    heap_used_chunks: HashMap<u32, Chunk>,
}

impl View for Allocator {
    type V = AllocState;

    closed spec fn view(&self) -> AllocState {
        AllocState {
            free: self.unused_chunks@.map_values(|c: Chunk| c@),
            used: self.heap_used_chunks@.map_values(|c: Chunk| c@),
        }
    }
}

impl Allocator {
    /// An allocator whose guard page at address zero and main thread stack
    /// are in use, and everything between them is one free region.
    pub fn new() -> (r: Allocator)
        ensures
            r@.wf(),
            r@.free == seq![
                Region {
                    base: NULL_PAGE_SIZE as int,
                    size: MAIN_THREAD_STACK_LOW_END - NULL_PAGE_SIZE,
                },
            ],
            r@.used == map![
                0u32 => Region { base: 0, size: NULL_PAGE_SIZE as int },
                MAIN_THREAD_STACK_LOW_END => Region {
                    base: MAIN_THREAD_STACK_LOW_END as int,
                    size: MAIN_THREAD_STACK_SIZE as int,
                },
            ],
    {
        let null_page = Chunk::new(0, NULL_PAGE_SIZE);
        let main_thread_stack = Chunk::new(MAIN_THREAD_STACK_LOW_END, MAIN_THREAD_STACK_SIZE);
        let rest = Chunk::new(NULL_PAGE_SIZE, MAIN_THREAD_STACK_LOW_END - NULL_PAGE_SIZE);
        let mut used_chunks: HashMap<u32, Chunk> = HashMap::new();
        used_chunks.insert(null_page.base, null_page);
        used_chunks.insert(main_thread_stack.base, main_thread_stack);
        let r = Allocator { unused_chunks: vec![rest], heap_used_chunks: used_chunks };
        proof {
            let s = r@;
            assert(s.free =~= seq![rest@]);
            assert(s.used =~= map![0u32 => null_page@, MAIN_THREAD_STACK_LOW_END => main_thread_stack@]);
            assert forall|x: int| 0 <= x < space_size() implies #[trigger] s.covered(x) by {
                if x < NULL_PAGE_SIZE {
                    assert(s.used[0u32].contains(x));
                } else if x < MAIN_THREAD_STACK_LOW_END {
                    assert(s.free[0].contains(x));
                } else {
                    assert(s.used[MAIN_THREAD_STACK_LOW_END].contains(x));
                }
            }
        }
        r
    }

    /// The free list, in order.
    pub fn free_chunks(&self) -> (r: Vec<Chunk>)
        ensures
            r@.map_values(|c: Chunk| c@) == self@.free,
    {
        let mut r: Vec<Chunk> = Vec::new();
        let mut i: usize = 0;
        while i < self.unused_chunks.len()
            invariant
                i <= self.unused_chunks.len(),
                r@ =~= self.unused_chunks@.subrange(0, i as int),
            decreases self.unused_chunks.len() - i,
        {
            r.push(self.unused_chunks[i]);
            i += 1;
        }
        assert(r@ =~= self.unused_chunks@);
        assert(r@.map_values(|c: Chunk| c@) =~= self@.free);
        r
    }

    /// Grants `size` bytes from the start of `existing_chunk`, a region that
    /// is neither free nor used; the rest of it, if any, becomes free.
    pub fn split_chunk(&mut self, size: u32, existing_chunk: Chunk) -> (r: u32)
        requires
            old(self)@.wf_detached(existing_chunk@),
            0 < size <= existing_chunk@.size,
        ensures
            final(self)@.wf(),
            r == existing_chunk@.base,
            final(self)@ == (AllocState {
                free: old(self)@.free + opt_seq(
                    after_part(existing_chunk@, Region { base: r as int, size: size as int }),
                ),
                used: old(self)@.used.insert(r, Region { base: r as int, size: size as int }),
            }),
    {
        let ghost pre = self@;
        let ghost e = existing_chunk@;
        let ghost granted = Region { base: e.base, size: size as int };
        if size < existing_chunk.size {
            let granted_chunk = Chunk::new(existing_chunk.base, size);
            let rump = Chunk::new(existing_chunk.base + size, existing_chunk.size - size);
            let res = granted_chunk.base;
            proof {
                lemma_push_part(pre, e, rump@, granted_chunk@);
            }
            self.unused_chunks.push(rump);
            assert(self@.free =~= pre.free.push(rump@));
            let ghost s1 = self@;
            proof {
                lemma_attach_used(s1, granted_chunk@);
            }
            self.heap_used_chunks.insert(res, granted_chunk);
            assert(self@.used =~= s1.used.insert(res, granted_chunk@));
            assert(self@.free =~= pre.free + opt_seq(after_part(e, granted)));
            res
        } else {
            let res = existing_chunk.base;
            proof {
                lemma_attach_used(pre, e);
            }
            self.heap_used_chunks.insert(res, existing_chunk);
            assert(self@.used =~= pre.used.insert(res, e));
            assert(self@.free =~= pre.free + opt_seq(after_part(e, granted)));
            res
        }
    }

    /// Grants a region of at least `size` bytes (see `align_size`) and
    /// returns its base. The free list is searched from its end: the first
    /// region of exactly the granted size wins, else the smallest larger one.
    pub fn allocate(&mut self, size: u32) -> (r: Result<u32, AllocError>)
        requires
            old(self)@.wf(),
        ensures
            final(self)@.wf(),
            alloc_step(old(self)@, size as int, r, final(self)@),
    {
        let ghost pre = self@;
        if size > 0xFFFF_FFF0 {
            assert(!pre.has_fit(granted_size(size as int))) by {
                assert forall|j: int| 0 <= j < pre.free.len() implies #[trigger] pre.free[j].size
                    < granted_size(size as int) by {
                    assert(pre.free[j].wf());
                }
            }
            return Err(AllocError::OutOfMemory);
        }
        let size = Self::align_size(size);
        let n = self.unused_chunks.len();
        let mut perfect_chunk: Option<usize> = None;
        let mut big_enough_chunk: Option<(usize, u32)> = None;
        let mut idx: usize = n;
        // Search from the end, so that recently freed regions of the right
        // size are preferred.
        while idx > 0 && perfect_chunk.is_none()
            invariant
                n == self.unused_chunks.len(),
                self@ == pre,
                idx <= n,
                perfect_chunk is None ==> forall|j: int|
                    idx <= j < n ==> (#[trigger] pre.free[j]).size != size,
                perfect_chunk matches Some(p) ==> {
                    &&& p == idx < n
                    &&& pre.free[p as int].size == size
                    &&& forall|j: int| idx < j < n ==> (#[trigger] pre.free[j]).size != size
                },
                big_enough_chunk is None ==> forall|j: int|
                    idx <= j < n ==> (#[trigger] pre.free[j]).size <= size,
                big_enough_chunk matches Some((b, bs)) ==> {
                    &&& idx <= b < n
                    &&& pre.free[b as int].size == bs
                    &&& bs > size
                    &&& forall|j: int|
                        idx <= j < n && (#[trigger] pre.free[j]).size > size ==> {
                            &&& pre.free[j].size >= bs
                            &&& j > b ==> pre.free[j].size > bs
                        }
                },
            decreases idx,
        {
            idx -= 1;
            let chunk_size = self.unused_chunks[idx].size();
            if chunk_size == size {
                perfect_chunk = Some(idx);
            } else if chunk_size > size {
                let tighter = match big_enough_chunk {
                    None => true,
                    Some((_, best_size)) => best_size > chunk_size,
                };
                if tighter {
                    big_enough_chunk = Some((idx, chunk_size));
                }
            }
        }
        let chosen = match perfect_chunk {
            Some(p) => p,
            None => match big_enough_chunk {
                Some((b, _)) => b,
                None => {
                    assert(!pre.has_fit(size as int));
                    return Err(AllocError::OutOfMemory);
                },
            },
        };
        assert(is_alloc_choice(pre.free, size as int, chosen as int));
        proof {
            lemma_detach_free(pre, chosen as int);
        }
        let existing_chunk = self.unused_chunks.remove(chosen);
        assert(self@.free =~= pre.free.remove(chosen as int));
        let base = self.split_chunk(size, existing_chunk);
        proof {
            let c = Region { base: pre.free[chosen as int].base, size: size as int };
            assert(before_part(pre.free[chosen as int], c) is None);
            assert(self@.free =~= pre.carve(chosen as int, c).free);
            assert(self@.used =~= pre.carve(chosen as int, c).used);
        }
        Ok(base)
    }

    /// Gives the used region based at `base` back to the free list, merged
    /// with at most one free neighbour, and returns its size (before any
    /// merge) so that the caller may clear those bytes.
    #[must_use]
    pub fn free(&mut self, base: u32) -> (r: Result<u32, AllocError>)
        requires
            old(self)@.wf(),
        ensures
            final(self)@.wf(),
            free_step(old(self)@, base, r, final(self)@),
    {
        let ghost pre = self@;
        let chunk = match self.heap_used_chunks.get(&base) {
            Some(c) => *c,
            None => return Err(AllocError::UnknownAllocation),
        };
        let size = chunk.size();
        proof {
            lemma_detach_used(pre, base);
        }
        self.heap_used_chunks.remove(&base);
        assert(self@.used =~= pre.used.remove(base));
        let (combined_chunk, _) = self.try_combine_with_neighbour(chunk, true);
        let ghost s1 = self@;
        proof {
            lemma_attach_free(s1, combined_chunk@);
        }
        self.unused_chunks.push(combined_chunk);
        assert(self@.free =~= s1.free.push(combined_chunk@));
        Ok(size)
    }

    /// Looks for a free region directly after `chunk` (or, when
    /// `allow_left_grow`, directly before it), takes the first one found off
    /// the free list and returns the two as one region. `chunk` is held by
    /// neither set.
    pub fn try_combine_with_neighbour(&mut self, chunk: Chunk, allow_left_grow: bool) -> (r: (
        Chunk,
        bool,
    ))
        requires
            old(self)@.wf_detached(chunk@),
        ensures
            final(self)@.wf_detached(r.0@),
            final(self)@.used == old(self)@.used,
            if has_neighbour(old(self)@.free, chunk@, allow_left_grow) {
                exists|i: int|
                    #[trigger] is_first_neighbour(old(self)@.free, chunk@, allow_left_grow, i)
                        && r.1 && r.0@ == merge(chunk@, old(self)@.free[i]) && final(self)@.free
                        == old(self)@.free.remove(i)
            } else {
                !r.1 && r.0 == chunk && final(self)@ == old(self)@
            },
    {
        let ghost pre = self@;
        let n = self.unused_chunks.len();
        let mut i: usize = 0;
        while i < n
            invariant
                n == self.unused_chunks.len(),
                self@ == pre,
                pre == old(self)@,
                pre.wf_detached(chunk@),
                i <= n,
                forall|j: int|
                    0 <= j < i ==> !neighbours(chunk@, #[trigger] pre.free[j], allow_left_grow),
            decreases n - i,
        {
            let other_chunk = self.unused_chunks[i];
            let adjacent = (other_chunk.base as u64) == (chunk.last_byte() as u64 + 1) || (
            allow_left_grow && (chunk.base as u64) == (other_chunk.last_byte() as u64 + 1));
            if adjacent && (chunk.size as u64 + other_chunk.size as u64) < 0x1_0000_0000u64 {
                proof {
                    lemma_combine(pre, chunk@, i as int, allow_left_grow);
                    assert(is_first_neighbour(pre.free, chunk@, allow_left_grow, i as int));
                }
                self.unused_chunks.remove(i);
                assert(self@.free =~= pre.free.remove(i as int));
                let combined_base = if chunk.base <= other_chunk.base {
                    chunk.base
                } else {
                    other_chunk.base
                };
                let combined = Chunk::new(combined_base, chunk.size + other_chunk.size);
                return (combined, true);
            }
            i += 1;
        }
        assert(!has_neighbour(pre.free, chunk@, allow_left_grow));
        (chunk, false)
    }

    /// The size granted for a request of `size` bytes: at least 16 and a
    /// multiple of 16.
    pub fn align_size(size: u32) -> (r: u32)
        requires
            size <= 0xFFFF_FFF0,
        ensures
            r == granted_size(size as int),
            r >= size,
            r >= 16,
            r % 16 == 0,
    {
        let size = if size < 16 { 16 } else { size };
        if size % 16 != 0 {
            size + 16 - (size % 16)
        } else {
            size
        }
    }

    /// Claims exactly the region `chunk` as used. It must lie inside a single
    /// free region; what is left of that region before and after it stays
    /// free.
    pub fn reserve(&mut self, chunk: Chunk) -> (r: Result<(), AllocError>)
        requires
            old(self)@.wf(),
        ensures
            final(self)@.wf(),
            reserve_step(old(self)@, chunk@, r, final(self)@),
    {
        proof {
            use_type_invariant(&chunk);
        }
        let n = self.unused_chunks.len();
        let mut i: usize = 0;
        while i < n
            invariant
                n == self.unused_chunks.len(),
                self@ == old(self)@,
                self@.wf(),
                chunk@.wf(),
                i <= n,
                forall|j: int| 0 <= j < i ==> !#[trigger] self@.encloses_at(chunk@, j),
            decreases n - i,
        {
            match self.unused_chunks[i].trisect_by(chunk) {
                Some((before, after)) => {
                    let ghost pre = self@;
                    let ghost e = pre.free[i as int];
                    let ghost rest = Region { base: chunk@.base, size: e.end() - chunk@.base };
                    proof {
                        lemma_detach_free(pre, i as int);
                    }
                    self.unused_chunks.remove(i);
                    assert(self@ == pre.with_free(pre.free.remove(i as int))) by {
                        assert(self@.free =~= pre.free.remove(i as int));
                    }
                    if let Some(b) = before {
                        let ghost s1 = self@;
                        proof {
                            lemma_push_part(s1, e, b@, rest);
                        }
                        self.unused_chunks.push(b);
                        assert(self@.free =~= s1.free.push(b@));
                    }
                    assert(self@.wf_detached(rest));
                    if let Some(a) = after {
                        let ghost s2 = self@;
                        proof {
                            lemma_push_part(s2, rest, a@, chunk@);
                        }
                        self.unused_chunks.push(a);
                        assert(self@.free =~= s2.free.push(a@));
                    } else {
                        assert(rest == chunk@);
                    }
                    let ghost s3 = self@;
                    assert(s3.wf_detached(chunk@));
                    proof {
                        lemma_attach_used(s3, chunk@);
                    }
                    self.heap_used_chunks.insert(chunk.base, chunk);
                    assert(self@.used =~= s3.used.insert(chunk@.base as u32, chunk@));
                    assert(self@.free =~= pre.carve(i as int, chunk@).free);
                    assert(pre.encloses_at(chunk@, i as int));
                    return Ok(());
                },
                None => {},
            }
            i += 1;
        }
        Err(AllocError::NotFree)
    }

    /// The used region whose base is `base`.
    pub fn find_allocated_chunk(&self, base: u32) -> (r: Result<Chunk, AllocError>)
        ensures
            r is Ok <==> self@.used.contains_key(base),
            r matches Ok(c) ==> c@ == self@.used[base],
            r matches Err(e) ==> e == AllocError::UnknownAllocation,
    {
        match self.heap_used_chunks.get(&base) {
            Some(c) => Ok(*c),
            None => Err(AllocError::UnknownAllocation),
        }
    }
}


/// The total number of bytes in a list of regions.
pub open spec fn total_size(regions: Seq<Region>) -> int
    decreases regions.len(),
{
    if regions.len() == 0 {
        0
    } else {
        total_size(regions.drop_last()) + regions.last().size
    }
}

proof fn lemma_total_size_push(regions: Seq<Region>, x: Region)
    ensures
        total_size(regions.push(x)) == total_size(regions) + x.size,
{
    assert(regions.push(x).drop_last() =~= regions);
}

proof fn lemma_total_size_concat(a: Seq<Region>, b: Seq<Region>)
    ensures
        total_size(a + b) == total_size(a) + total_size(b),
    decreases b.len(),
{
    if b.len() == 0 {
        assert(a + b =~= a);
    } else {
        lemma_total_size_concat(a, b.drop_last());
        assert((a + b).drop_last() =~= a + b.drop_last());
    }
}

proof fn lemma_total_size_remove(regions: Seq<Region>, i: int)
    requires
        0 <= i < regions.len(),
    ensures
        total_size(regions.remove(i)) == total_size(regions) - regions[i].size,
{
    let front = regions.subrange(0, i);
    let back = regions.subrange(i + 1, regions.len() as int);
    lemma_total_size_concat(front, back);
    lemma_total_size_concat(front.push(regions[i]), back);
    lemma_total_size_push(front, regions[i]);
    assert(front.push(regions[i]) + back =~= regions);
}

/// Under the invariant, every address of the space belongs to exactly one
/// region: a free one or a used one, never two.
pub proof fn lemma_address_has_one_owner(s: AllocState, addr: int)
    requires
        s.wf(),
        0 <= addr < space_size(),
    ensures
        s.free_covers(addr) || s.used_covers(addr),
        !(s.free_covers(addr) && s.used_covers(addr)),
        forall|i: int, j: int|
            0 <= i < s.free.len() && 0 <= j < s.free.len() && (#[trigger] s.free[i]).contains(addr)
                && (#[trigger] s.free[j]).contains(addr) ==> i == j,
        forall|k1: u32, k2: u32|
            s.used.contains_key(k1) && s.used.contains_key(k2) && (#[trigger] s.used[k1]).contains(
                addr,
            ) && (#[trigger] s.used[k2]).contains(addr) ==> k1 == k2,
{
    assert(s.covered(addr));
    if s.free_covers(addr) && s.used_covers(addr) {
        let i = choose|i: int| 0 <= i < s.free.len() && #[trigger] s.free[i].contains(addr);
        let k = choose|k: u32| s.used.contains_key(k) && #[trigger] s.used[k].contains(addr);
        assert(s.free[i].disjoint(s.used[k]));
    }
}

/// Every granted size is at least the requested size, at least 16, and a
/// multiple of 16.
pub proof fn lemma_granted_size(requested: int)
    requires
        requested >= 0,
    ensures
        granted_size(requested) >= requested,
        granted_size(requested) >= 16,
        granted_size(requested) % 16 == 0,
{
}

/// A successful allocation records, under the returned base, a used region
/// of exactly the granted size; this is what a lookup of that base returns.
pub proof fn lemma_allocate_then_find(
    pre: AllocState,
    size: u32,
    base: u32,
    post: AllocState,
)
    requires
        pre.wf(),
        alloc_step(pre, size as int, Ok(base), post),
    ensures
        post.used.contains_key(base),
        post.used[base] == (Region { base: base as int, size: granted_size(size as int) }),
        post.used[base].size >= size,
        post.used[base].size >= 16,
        post.used[base].size % 16 == 0,
{
    lemma_granted_size(size as int);
}

/// Freeing a base right after it was allocated succeeds with the granted
/// size, gives back every used region as it was before the allocation,
/// returns the address to a free region, and restores the total free size;
/// an allocation of the same size then fits again.
pub proof fn lemma_allocate_then_free(
    pre: AllocState,
    size: u32,
    base: u32,
    mid: AllocState,
    r: Result<u32, AllocError>,
    post: AllocState,
)
    requires
        pre.wf(),
        alloc_step(pre, size as int, Ok(base), mid),
        free_step(mid, base, r, post),
    ensures
        r == Ok::<u32, AllocError>(granted_size(size as int) as u32),
        post.used == pre.used,
        post.free_covers(base as int),
        total_size(post.free) == total_size(pre.free),
        post.has_fit(granted_size(size as int)),
{
    let g = granted_size(size as int);
    let i = choose|i: int|
        #[trigger] is_alloc_choice(pre.free, g, i) && Ok::<u32, AllocError>(base) == Ok::<
            u32,
            AllocError,
        >(pre.free[i].base as u32) && mid == pre.carve(i, Region { base: pre.free[i].base, size: g });
    let e = pre.free[i];
    let c = Region { base: e.base, size: g };
    assert(e.wf());
    assert(c.base == base);
    assert(!pre.used.contains_key(base)) by {
        if pre.used.contains_key(base) {
            assert(pre.used[base].contains(base as int));
            assert(e.disjoint(pre.used[base]));
        }
    }
    assert(mid.used[base] == c);
    assert(mid.used.remove(base) =~= pre.used);
    // The free list after the allocation lost exactly `g` bytes.
    let rest = opt_seq(after_part(e, c));
    assert(before_part(e, c) is None);
    assert(mid.free =~= pre.free.remove(i) + rest);
    lemma_total_size_remove(pre.free, i);
    lemma_total_size_concat(pre.free.remove(i), rest);
    if after_part(e, c) is Some {
        lemma_total_size_push(Seq::empty(), after_part(e, c).unwrap());
        assert(seq![after_part(e, c).unwrap()] =~= Seq::<Region>::empty().push(
            after_part(e, c).unwrap(),
        ));
    }
    assert(total_size(mid.free) == total_size(pre.free) - g);
    // Freeing gives them back, merged or not.
    if has_neighbour(mid.free, c, true) {
        let j = choose|j: int|
            is_first_neighbour(mid.free, c, true, j) && post.free == mid.free.remove(j).push(
                merge(c, mid.free[j]),
            );
        let m = merge(c, mid.free[j]);
        lemma_total_size_remove(mid.free, j);
        lemma_total_size_push(mid.free.remove(j), m);
        let last = post.free.len() - 1;
        assert(post.free[last] == m);
        assert(post.free[last].contains(base as int));
        assert(post.free[last].size >= g);
    } else {
        lemma_total_size_push(mid.free, c);
        let last = post.free.len() - 1;
        assert(post.free[last] == c);
        assert(post.free[last].contains(base as int));
    }
}

/// A base that was just freed is no longer in use, so freeing it again
/// fails and changes nothing.
pub proof fn lemma_double_free(
    pre: AllocState,
    base: u32,
    size: u32,
    mid: AllocState,
    r: Result<u32, AllocError>,
    post: AllocState,
)
    requires
        free_step(pre, base, Ok(size), mid),
        free_step(mid, base, r, post),
    ensures
        r == Err::<u32, AllocError>(AllocError::UnknownAllocation),
        post == mid,
{
    assert(!mid.used.contains_key(base));
}

/// `c` shares an address with some used region.
pub open spec fn overlaps_used(s: AllocState, c: Region) -> bool {
    exists|k: u32| s.used.contains_key(k) && !c.disjoint(#[trigger] s.used[k])
}

/// `c` shares addresses with two different free regions.
pub open spec fn straddles_free(s: AllocState, c: Region) -> bool {
    exists|i: int, j: int|
        0 <= i < s.free.len() && 0 <= j < s.free.len() && i != j && !c.disjoint(
            #[trigger] s.free[i],
        ) && !c.disjoint(#[trigger] s.free[j])
}

/// A reservation that overlaps a used region, or that spans two free
/// regions, fails and changes nothing.
pub proof fn lemma_reserve_rejected(
    pre: AllocState,
    c: Region,
    r: Result<(), AllocError>,
    post: AllocState,
)
    requires
        pre.wf(),
        c.wf(),
        overlaps_used(pre, c) || straddles_free(pre, c),
        reserve_step(pre, c, r, post),
    ensures
        r == Err::<(), AllocError>(AllocError::NotFree),
        post == pre,
{
    if pre.can_reserve(c) {
        let i = choose|i: int| #[trigger] pre.encloses_at(c, i);
        if overlaps_used(pre, c) {
            let k = choose|k: u32| pre.used.contains_key(k) && !c.disjoint(#[trigger] pre.used[k]);
            assert(pre.free[i].disjoint(pre.used[k]));
        } else {
            let (a, b) = choose|a: int, b: int|
                0 <= a < pre.free.len() && 0 <= b < pre.free.len() && a != b && !c.disjoint(
                    #[trigger] pre.free[a],
                ) && !c.disjoint(#[trigger] pre.free[b]);
            if a != i {
                assert(pre.free[i].disjoint(pre.free[a]));
            } else {
                assert(pre.free[i].disjoint(pre.free[b]));
            }
        }
    }
}

} // verus!
