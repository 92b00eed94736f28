//! `stdlib.h`: number parsing, the pseudo-random number generators and the
//! allocation calls.
use crate::libc::generic_char::{c_len, is_c_len, strlen, terminated};
use crate::mem::allocator::{alloc_step, free_step, AllocError, Allocator};
use vstd::prelude::*;

verus! {

/// Largest value that `rand` and `random` return.
pub const RAND_MAX: i32 = 0x7FFF_FFFF;

/// One step of xorshift32, from a state that is never zero.
pub open spec fn xorshift32(state: u32) -> u32 {
    let s0: u32 = if state == 0 { 1 } else { state };
    let s1: u32 = s0 ^ (s0 << 13u32);
    let s2: u32 = s1 ^ (s1 >> 17u32);
    s2 ^ (s2 << 5u32)
}

/// The generators' states.
pub struct State {
    rand: u32,
    random: u32,
    arc4random: u32,
}

impl State {
    pub closed spec fn rand_state(&self) -> u32 {
        self.rand
    }

    pub closed spec fn random_state(&self) -> u32 {
        self.random
    }

    pub closed spec fn arc4random_state(&self) -> u32 {
        self.arc4random
    }
}

impl Default for State {
    fn default() -> (r: State)
        ensures
            r.rand_state() == 0,
            r.random_state() == 0,
            r.arc4random_state() == 0,
    {
        State { rand: 0, random: 0, arc4random: 0 }
    }
}

/// The next state of the generator. A zero state counts as one, which makes
/// the default seed one, as the C standard asks.
pub fn prng(state: u32) -> (r: u32)
    ensures
        r == xorshift32(state),
{
    let mut state: u32 = if state < 1 { 1 } else { state };
    state = state ^ (state << 13u32);
    state = state ^ (state >> 17u32);
    state = state ^ (state << 5u32);
    state
}

pub fn srand(state: &mut State, seed: u32)
    ensures
        final(state).rand_state() == seed,
        final(state).random_state() == old(state).random_state(),
        final(state).arc4random_state() == old(state).arc4random_state(),
{
    state.rand = seed;
}

pub fn rand(state: &mut State) -> (r: i32)
    ensures
        final(state).rand_state() == xorshift32(old(state).rand_state()),
        final(state).random_state() == old(state).random_state(),
        final(state).arc4random_state() == old(state).arc4random_state(),
        r == (final(state).rand_state() & 0x7FFF_FFFF) as i32,
        0 <= r <= RAND_MAX,
{
    state.rand = prng(state.rand);
    let next = state.rand;
    assert(next & 0x7FFF_FFFF <= 0x7FFF_FFFF) by (bit_vector);
    (next & 0x7FFF_FFFF) as i32
}

pub fn srandom(state: &mut State, seed: u32)
    ensures
        final(state).random_state() == seed,
        final(state).rand_state() == old(state).rand_state(),
        final(state).arc4random_state() == old(state).arc4random_state(),
{
    state.random = seed;
}

pub fn random(state: &mut State) -> (r: i32)
    ensures
        final(state).random_state() == xorshift32(old(state).random_state()),
        final(state).rand_state() == old(state).rand_state(),
        final(state).arc4random_state() == old(state).arc4random_state(),
        r == (final(state).random_state() & 0x7FFF_FFFF) as i32,
        0 <= r <= RAND_MAX,
{
    state.random = prng(state.random);
    let next = state.random;
    assert(next & 0x7FFF_FFFF <= 0x7FFF_FFFF) by (bit_vector);
    (next & 0x7FFF_FFFF) as i32
}

pub fn arc4random(state: &mut State) -> (r: u32)
    ensures
        final(state).arc4random_state() == xorshift32(old(state).arc4random_state()),
        final(state).rand_state() == old(state).rand_state(),
        final(state).random_state() == old(state).random_state(),
        r == final(state).arc4random_state(),
{
    state.arc4random = prng(state.arc4random);
    state.arc4random
}

/// The guest pointer for the outcome of an allocation: its base, or null.
pub open spec fn guest_pointer(res: Result<u32, AllocError>) -> u32 {
    match res {
        Ok(base) => base,
        Err(_) => 0,
    }
}

/// Allocates `size` bytes; out of memory becomes the null pointer.
pub fn malloc(allocator: &mut Allocator, size: u32) -> (r: u32)
    requires
        old(allocator)@.wf(),
    ensures
        final(allocator)@.wf(),
        exists|res: Result<u32, AllocError>|
            #[trigger] alloc_step(old(allocator)@, size as int, res, final(allocator)@) && r == guest_pointer(res),
{
    match allocator.allocate(size) {
        Ok(base) => base,
        Err(_) => 0,
    }
}

/// Allocates `count` items of `size` bytes each; when the total does not
/// fit 32 bits, or memory runs out, the result is the null pointer.
pub fn calloc(allocator: &mut Allocator, count: u32, size: u32) -> (r: u32)
    requires
        old(allocator)@.wf(),
    ensures
        final(allocator)@.wf(),
        count * size > u32::MAX ==> r == 0 && final(allocator)@ == old(allocator)@,
        count * size <= u32::MAX ==> exists|res: Result<u32, AllocError>|
            #[trigger] alloc_step(old(allocator)@, count * size, res, final(allocator)@) && r == guest_pointer(res),
{
    match size.checked_mul(count) {
        Some(total) => malloc(allocator, total),
        None => 0,
    }
}

/// Releases the allocation at `ptr`; the null pointer is ignored.
pub fn free(allocator: &mut Allocator, ptr: u32) -> (r: Result<(), AllocError>)
    requires
        old(allocator)@.wf(),
    ensures
        final(allocator)@.wf(),
        ptr == 0 ==> r is Ok && final(allocator)@ == old(allocator)@,
        ptr != 0 ==> exists|res: Result<u32, AllocError>|
            #[trigger] free_step(old(allocator)@, ptr, res, final(allocator)@) && (r is Ok <==> res is Ok),
{
    if ptr == 0 {
        return Ok(());
    }
    match allocator.free(ptr) {
        Ok(_) => Ok(()),
        Err(e) => Err(e),
    }
}

/// C's whitespace: space, tab, newline, vertical tab, form feed and
/// carriage return.
pub open spec fn is_c_space(c: u8) -> bool {
    c == 0x20 || c == 0x09 || c == 0x0a || c == 0x0b || c == 0x0c || c == 0x0d
}

pub open spec fn is_digit(c: u8) -> bool {
    0x30 <= c <= 0x39
}

/// The value of a run of decimal digits.
pub open spec fn decimal_value(digits: Seq<u8>) -> int
    decreases digits.len(),
{
    if digits.len() == 0 {
        0
    } else {
        decimal_value(digits.drop_last()) * 10 + (digits.last() - 0x30)
    }
}

/// The first byte at or after `s` that is not whitespace.
pub fn skip_whitespace(mem: &[u8], s: usize) -> (r: usize)
    requires
        terminated(mem@, s as int),
    ensures
        s <= r < mem@.len(),
        !is_c_space(mem@[r as int]),
        forall|j: int| s <= j < r ==> is_c_space(#[trigger] mem@[j]),
{
    let ghost n = c_len(mem@, s as int);
    let mut start: usize = s;
    loop
        invariant
            is_c_len(mem@, s as int, n),
            s + n < mem.len(),
            s <= start <= s + n,
            forall|j: int| s <= j < start ==> is_c_space(#[trigger] mem@[j]),
        decreases s + n - start,
    {
        let c = mem[start];
        if c == 0x20 || c == 0x09 || c == 0x0a || c == 0x0b || c == 0x0c || c == 0x0d {
            start += 1;
        } else {
            return start;
        }
    }
}

/// Where the digits begin, after an optional sign at `start`.
pub open spec fn digits_start(mem: Seq<u8>, start: int) -> int {
    if mem[start] == 0x2b || mem[start] == 0x2d {
        start + 1
    } else {
        start
    }
}

/// The end of the run of digits that starts at `from`.
pub open spec fn digits_end(mem: Seq<u8>, from: int, end: int) -> bool {
    &&& from <= end < mem.len()
    &&& !is_digit(mem[end])
    &&& forall|j: int| from <= j < end ==> is_digit(#[trigger] mem[j])
}

/// What `atoi` gives for the string at `s`: after whitespace and an
/// optional sign, the longest run of digits, read as a decimal number;
/// zero when there is no digit or the number does not fit an `i32`.
pub open spec fn atoi_value(mem: Seq<u8>, start: int, from: int, end: int) -> i32 {
    let negative = mem[start] == 0x2d;
    let v = decimal_value(mem.subrange(from, end));
    if end == from {
        0
    } else if negative && v <= 0x8000_0000 {
        (-v) as i32
    } else if !negative && v <= 0x7FFF_FFFF {
        v as i32
    } else {
        0
    }
}

proof fn lemma_decimal_push(digits: Seq<u8>, d: u8)
    ensures
        decimal_value(digits.push(d)) == decimal_value(digits) * 10 + (d - 0x30),
{
    assert(digits.push(d).drop_last() =~= digits);
}

proof fn lemma_decimal_nonneg(digits: Seq<u8>)
    requires
        forall|j: int| 0 <= j < digits.len() ==> is_digit(#[trigger] digits[j]),
    ensures
        decimal_value(digits) >= 0,
    decreases digits.len(),
{
    if digits.len() > 0 {
        lemma_decimal_nonneg(digits.drop_last());
    }
}

/// Reads a decimal integer from the string at `s`, as C's `atoi` does.
/// Overflow is undefined in C; here it gives zero.
pub fn atoi(mem: &[u8], s: usize) -> (r: i32)
    requires
        terminated(mem@, s as int),
    ensures
        exists|start: int, end: int|
            {
                &&& s <= start
                &&& !is_c_space(mem@[start])
                &&& forall|j: int| s <= j < start ==> is_c_space(#[trigger] mem@[j])
                &&& #[trigger] digits_end(
                    mem@,
                    digits_start(mem@, start),
                    end,
                )
                &&& r == atoi_value(
                    mem@,
                    start,
                    digits_start(mem@, start),
                    end,
                )
            },
{
    let start = skip_whitespace(mem, s);
    let ghost n = c_len(mem@, s as int);
    proof {
        if start > s + n {
            assert(is_c_space(mem@[s + n]));
        }
    }
    let sign = mem[start];
    let negative = sign == 0x2d;
    let from: usize = if sign == 0x2b || sign == 0x2d {
        start + 1
    } else {
        start
    };
    // The magnitude, held exactly while it may still fit an `i32`.
    let mut value: u64 = 0;
    let mut too_big = false;
    let mut end: usize = from;
    while 0x30 <= mem[end] && mem[end] <= 0x39
        invariant
            is_c_len(mem@, s as int, n),
            s + n < mem.len(),
            s <= start <= s + n,
            from <= end <= s + n,
            from == start || from == start + 1,
            from == start + 1 ==> mem@[start as int] != 0,
            forall|j: int| from <= j < end ==> is_digit(#[trigger] mem@[j]),
            !too_big ==> value == decimal_value(mem@.subrange(from as int, end as int)),
            !too_big ==> value <= 0x8000_0000,
            too_big ==> decimal_value(mem@.subrange(from as int, end as int)) > 0x8000_0000,
        decreases s + n - end,
    {
        let ghost prefix = mem@.subrange(from as int, end as int);
        let d = mem[end];
        proof {
            assert(mem@.subrange(from as int, end + 1) =~= prefix.push(d));
            lemma_decimal_push(prefix, d);
            lemma_decimal_nonneg(prefix);
        }
        if !too_big {
            value = value * 10 + (d - 0x30) as u64;
            if value > 0x8000_0000 {
                too_big = true;
            }
        }
        end += 1;
    }
    let r: i32 = if end == from || too_big {
        0
    } else if negative {
        (0 - value as i64) as i32
    } else if value <= 0x7FFF_FFFF {
        value as i32
    } else {
        0
    };
    assert(digits_end(mem@, from as int, end as int));
    assert(digits_start(mem@, start as int) == from);
    assert(r == atoi_value(mem@, start as int, from as int, end as int));
    r
}

/// `atol`: `long` is 32 bits wide on the guest, so this is `atoi`.
pub fn atol(mem: &[u8], s: usize) -> (r: i32)
    requires
        terminated(mem@, s as int),
    ensures
        exists|start: int, end: int|
            {
                &&& s <= start
                &&& !is_c_space(mem@[start])
                &&& forall|j: int| s <= j < start ==> is_c_space(#[trigger] mem@[j])
                &&& #[trigger] digits_end(mem@, digits_start(mem@, start), end)
                &&& r == atoi_value(mem@, start, digits_start(mem@, start), end)
            },
{
    atoi(mem, s)
}

/// The largest `unsigned long`, which `strtoul` returns for what it cannot
/// read.
pub const ULONG_MAX: u32 = 0xFFFF_FFFF;

/// The value of a hexadecimal digit, or -1 for any other byte.
pub open spec fn hex_digit_value(c: u8) -> int {
    if 0x30 <= c <= 0x39 {
        c - 0x30
    } else if 0x61 <= c <= 0x66 {
        c - 0x61 + 10
    } else if 0x41 <= c <= 0x46 {
        c - 0x41 + 10
    } else {
        -1
    }
}

pub open spec fn all_hex_digits(d: Seq<u8>) -> bool {
    forall|j: int| 0 <= j < d.len() ==> hex_digit_value(#[trigger] d[j]) >= 0
}

/// The value of a run of hexadecimal digits.
pub open spec fn hex_value(d: Seq<u8>) -> int
    decreases d.len(),
{
    if d.len() == 0 {
        0
    } else {
        hex_value(d.drop_last()) * 16 + hex_digit_value(d.last())
    }
}

/// `t` without its leading `"0x"`s, however many there are.
pub open spec fn strip_hex_prefixes(t: Seq<u8>) -> Seq<u8>
    decreases t.len(),
{
    if t.len() >= 2 && t[0] == 0x30 && t[1] == 0x78 {
        strip_hex_prefixes(t.subrange(2, t.len() as int))
    } else {
        t
    }
}

/// The digits of `t` after an optional `+` that is not all of `t`.
pub open spec fn unsigned_digits(t: Seq<u8>) -> Seq<u8> {
    if t.len() > 1 && t[0] == 0x2b {
        t.drop_first()
    } else {
        t
    }
}

/// What `strtoul` in base 16 gives for the string `t`: leading `"0x"`s are
/// dropped, then an optional `+` and at least one hexadecimal digit must
/// make up the rest, with a value that fits 32 bits; anything else gives
/// `ULONG_MAX`.
pub open spec fn strtoul_value(t: Seq<u8>) -> u32 {
    let d = unsigned_digits(strip_hex_prefixes(t));
    if d.len() > 0 && all_hex_digits(d) && hex_value(d) <= 0xFFFF_FFFF {
        hex_value(d) as u32
    } else {
        0xFFFF_FFFF
    }
}

proof fn lemma_hex_nonneg(d: Seq<u8>)
    requires
        all_hex_digits(d),
    ensures
        hex_value(d) >= 0,
    decreases d.len(),
{
    if d.len() > 0 {
        lemma_hex_nonneg(d.drop_last());
    }
}

proof fn lemma_hex_prefix(d: Seq<u8>, k: int)
    requires
        all_hex_digits(d),
        0 <= k <= d.len(),
    ensures
        hex_value(d.subrange(0, k)) <= hex_value(d),
    decreases d.len(),
{
    if k < d.len() {
        lemma_hex_prefix(d.drop_last(), k);
        assert(d.drop_last().subrange(0, k) =~= d.subrange(0, k));
        lemma_hex_nonneg(d.drop_last());
    } else {
        assert(d.subrange(0, k) =~= d);
    }
}

/// Reads an unsigned hexadecimal number from the C string at `str`, and
/// returns it with the address of the string's terminator. Only base 16 is
/// supported.
pub fn strtoul(mem: &[u8], str: usize, base: i32) -> (r: (u32, usize))
    requires
        terminated(mem@, str as int),
        base == 16,
    ensures
        r.0 == strtoul_value(mem@.subrange(str as int, str + c_len(mem@, str as int))),
        r.1 == str + c_len(mem@, str as int),
{
    let len = strlen(mem, str);
    assert(str + len < mem@.len() && mem@.len() == mem.len());
    let end = str + len;
    let ghost t = mem@.subrange(str as int, end as int);
    let mut i: usize = str;
    while i + 1 < end && mem[i] == 0x30 && mem[i + 1] == 0x78
        invariant
            end < mem.len(),
            end == str + c_len(mem@, str as int),
            t == mem@.subrange(str as int, end as int),
            str <= i <= end,
            strip_hex_prefixes(t) == strip_hex_prefixes(mem@.subrange(i as int, end as int)),
        decreases end - i,
    {
        assert(mem@.subrange(i as int, end as int).subrange(2, end - i) =~= mem@.subrange(
            i + 2,
            end as int,
        ));
        i += 2;
    }
    assert(strip_hex_prefixes(t) == mem@.subrange(i as int, end as int));
    if end - i > 1 && mem[i] == 0x2b {
        i += 1;
        assert(mem@.subrange(i - 1, end as int).drop_first() =~= mem@.subrange(i as int, end as int));
    }
    let ghost d = mem@.subrange(i as int, end as int);
    assert(d == unsigned_digits(strip_hex_prefixes(t)));
    if i == end {
        return (ULONG_MAX, end);
    }
    let mut value: u64 = 0;
    let mut j: usize = i;
    while j < end
        invariant
            end < mem.len(),
            end == str + c_len(mem@, str as int),
            t == mem@.subrange(str as int, end as int),
            d == unsigned_digits(strip_hex_prefixes(t)),
            d == mem@.subrange(i as int, end as int),
            i <= j <= end,
            all_hex_digits(mem@.subrange(i as int, j as int)),
            value == hex_value(mem@.subrange(i as int, j as int)),
            value <= 0xFFFF_FFFF,
        decreases end - j,
    {
        let c = mem[j];
        let digit: u64 = if 0x30 <= c && c <= 0x39 {
            (c - 0x30) as u64
        } else if 0x61 <= c && c <= 0x66 {
            (c - 0x61 + 10) as u64
        } else if 0x41 <= c && c <= 0x46 {
            (c - 0x41 + 10) as u64
        } else {
            assert(d[j - i] == c);
            return (ULONG_MAX, end);
        };
        let ghost prefix = mem@.subrange(i as int, j as int);
        assert(mem@.subrange(i as int, j + 1) =~= prefix.push(c));
        assert(prefix.push(c).drop_last() =~= prefix);
        value = value * 16 + digit;
        j += 1;
        if value > 0xFFFF_FFFF {
            proof {
                if all_hex_digits(d) {
                    lemma_hex_prefix(d, j - i);
                    assert(d.subrange(0, j - i) =~= mem@.subrange(i as int, j as int));
                }
            }
            return (ULONG_MAX, end);
        }
    }
    assert(mem@.subrange(i as int, j as int) =~= d);
    (value as u32, end)
}

/// The part of the array that a binary search still has to look at: `len`
/// items from index `low`.
#[derive(PartialEq, Eq, Structural, Copy, Clone, Debug)]
pub struct SearchRange {
    pub low: u32,
    pub len: u32,
}

/// What a binary search does after the guest's comparison function has
/// compared the key with the probed item.
#[derive(PartialEq, Eq, Structural, Copy, Clone, Debug)]
pub enum SearchStep {
    /// The probed item is equal to the key.
    Found(u32),
    /// Continue with this range.
    Continue(SearchRange),
}

/// The search range over all `item_count` items.
pub fn bsearch_start(item_count: u32) -> (r: SearchRange)
    ensures
        r == (SearchRange { low: 0, len: item_count }),
{
    SearchRange { low: 0, len: item_count }
}

/// The index of the item to compare with the key next, or `None` when the
/// range is empty and the key is not there.
pub fn bsearch_probe(range: SearchRange) -> (r: Option<u32>)
    requires
        range.low + range.len <= u32::MAX,
    ensures
        range.len == 0 <==> r is None,
        r matches Some(i) ==> i == range.low + range.len / 2,
{
    if range.len == 0 {
        None
    } else {
        Some(range.low + range.len / 2)
    }
}

/// The next step after the comparison function returned `cmp` for the key
/// and the probed item: found when zero, otherwise the half of the range
/// after the probe (when positive) or before it (when negative).
pub fn bsearch_narrow(range: SearchRange, cmp: i32) -> (r: SearchStep)
    requires
        range.len > 0,
        range.low + range.len <= u32::MAX,
    ensures
        r == bsearch_narrow_spec(range, cmp),
        r matches SearchStep::Continue(next) ==> next.len < range.len && range.low <= next.low
            && next.low + next.len <= range.low + range.len,
{
    let half_len = range.len / 2;
    if cmp == 0 {
        SearchStep::Found(range.low + half_len)
    } else if cmp > 0 {
        SearchStep::Continue(
            SearchRange { low: range.low + half_len + 1, len: range.len - half_len - 1 },
        )
    } else {
        SearchStep::Continue(SearchRange { low: range.low, len: half_len })
    }
}

/// The sign of a comparison result.
pub open spec fn cmp_sign(x: i32) -> int {
    if x > 0 {
        1
    } else if x < 0 {
        -1
    } else {
        0
    }
}

/// The comparison results of a key against each item of a sorted array:
/// positive before the key's place, zero at it, negative after it.
pub open spec fn sorted_comparisons(cmps: Seq<i32>) -> bool {
    forall|i: int, j: int|
        0 <= i < j < cmps.len() ==> cmp_sign(#[trigger] cmps[i]) >= cmp_sign(#[trigger] cmps[j])
}

/// Some item in `range` compares equal to the key.
pub open spec fn key_in_range(cmps: Seq<i32>, range: SearchRange) -> bool {
    exists|f: int|
        range.low <= f < range.low + range.len && f < cmps.len() && #[trigger] cmps[f] == 0
}

/// In a sorted array, a step of the search never loses the key: when an
/// item of the range equals it, the step finds an equal item or keeps one
/// in the new range.
pub proof fn lemma_narrow_keeps_key(cmps: Seq<i32>, range: SearchRange)
    requires
        sorted_comparisons(cmps),
        range.len > 0,
        range.low + range.len <= cmps.len(),
        range.low + range.len <= u32::MAX,
        key_in_range(cmps, range),
    ensures
        ({
            let r = bsearch_narrow_spec(range, cmps[range.low + range.len / 2]);
            &&& r matches SearchStep::Found(i) ==> cmps[i as int] == 0
            &&& r matches SearchStep::Continue(next) ==> key_in_range(cmps, next)
        }),
{
    let p = range.low + range.len / 2;
    let f = choose|f: int|
        range.low <= f < range.low + range.len && f < cmps.len() && #[trigger] cmps[f] == 0;
    if cmps[p] > 0 {
        if f < p {
            assert(cmp_sign(cmps[f]) >= cmp_sign(cmps[p]));
        }
        assert(f > p);
        assert(cmps[f] == 0);
    } else if cmps[p] < 0 {
        if f > p {
            assert(cmp_sign(cmps[p]) >= cmp_sign(cmps[f]));
        }
        assert(f < p);
        assert(cmps[f] == 0);
    }
}

/// What `bsearch_narrow` returns.
pub open spec fn bsearch_narrow_spec(range: SearchRange, cmp: i32) -> SearchStep {
    if cmp == 0 {
        SearchStep::Found((range.low + range.len / 2) as u32)
    } else if cmp > 0 {
        SearchStep::Continue(
            SearchRange {
                low: (range.low + range.len / 2 + 1) as u32,
                len: (range.len - range.len / 2 - 1) as u32,
            },
        )
    } else {
        SearchStep::Continue(SearchRange { low: range.low, len: (range.len / 2) as u32 })
    }
}

} // verus!
