//! C string and memory functions over the guest's flat byte memory. A guest
//! pointer is an offset into `mem`; `None` stands for the null pointer.
use vstd::prelude::*;

verus! {

/// The C string at `s` has length `n`: its first NUL byte is at `s + n`.
pub open spec fn is_c_len(mem: Seq<u8>, s: int, n: int) -> bool {
    &&& 0 <= s
    &&& 0 <= n
    &&& s + n < mem.len()
    &&& mem[s + n] == 0
    &&& forall|j: int| s <= j < s + n ==> mem[j] != 0
}

/// A NUL byte ends the string at `s` inside `mem`.
pub open spec fn terminated(mem: Seq<u8>, s: int) -> bool {
    exists|n: int| is_c_len(mem, s, n)
}

/// The length of the C string at `s`.
pub open spec fn c_len(mem: Seq<u8>, s: int) -> int {
    choose|n: int| is_c_len(mem, s, n)
}

/// The sign of `x`, as the comparison functions return it.
pub open spec fn sign(x: int) -> i32 {
    if x < 0 {
        -1i32
    } else if x > 0 {
        1i32
    } else {
        0i32
    }
}

/// The strings at `a` and `b` stop agreeing at offset `k`: the bytes there
/// differ, or both strings end.
pub open spec fn stops_at(mem: Seq<u8>, a: int, b: int, k: int) -> bool {
    mem[a + k] != mem[b + k] || mem[a + k] == 0
}

/// `k` is the first offset at which the strings at `a` and `b` stop
/// agreeing, and the comparison's answer is decided by the bytes there.
pub open spec fn first_stop(mem: Seq<u8>, a: int, b: int, k: int) -> bool {
    &&& 0 <= k
    &&& stops_at(mem, a, b, k)
    &&& forall|j: int| 0 <= j < k ==> !#[trigger] stops_at(mem, a, b, j)
}

pub open spec fn same_at(mem: Seq<u8>, a: int, b: int, j: int) -> bool {
    mem[a + j] == mem[b + j]
}

/// `k` is the first offset below `n` at which the bytes at `a` and `b`
/// differ.
pub open spec fn first_difference(mem: Seq<u8>, a: int, b: int, n: int, k: int) -> bool {
    &&& 0 <= k < n
    &&& mem[a + k] != mem[b + k]
    &&& forall|j: int| 0 <= j < k ==> #[trigger] same_at(mem, a, b, j)
}

proof fn lemma_c_len_unique(mem: Seq<u8>, s: int, n: int, m: int)
    requires
        is_c_len(mem, s, n),
        is_c_len(mem, s, m),
    ensures
        n == m,
{
    if n < m {
        assert(mem[s + n] != 0);
    }
    if m < n {
        assert(mem[s + m] != 0);
    }
}

/// The length of the C string at `s`.
pub fn strlen(mem: &[u8], s: usize) -> (r: usize)
    requires
        terminated(mem@, s as int),
    ensures
        is_c_len(mem@, s as int, r as int),
        r == c_len(mem@, s as int),
{
    let ghost n = c_len(mem@, s as int);
    let mut i: usize = 0;
    while mem[s + i] != 0
        invariant
            is_c_len(mem@, s as int, n),
            s + n < mem.len(),
            0 <= i <= n,
            forall|j: int| s <= j < s + i ==> mem@[j] != 0,
        decreases n - i,
    {
        i += 1;
    }
    proof {
        lemma_c_len_unique(mem@, s as int, i as int, n);
    }
    i
}

/// Compares the C strings at `a` and `b`: the sign of the difference of
/// the first bytes at which they differ or end.
pub fn strcmp(mem: &[u8], a: usize, b: usize) -> (r: i32)
    requires
        terminated(mem@, a as int),
        terminated(mem@, b as int),
    ensures
        exists|k: int|
            #[trigger] first_stop(mem@, a as int, b as int, k) && r == sign(
                mem@[a + k] - mem@[b + k],
            ),
{
    let ghost na = choose|n: int| is_c_len(mem@, a as int, n);
    let ghost nb = choose|n: int| is_c_len(mem@, b as int, n);
    let mut offset: usize = 0;
    loop
        invariant
            is_c_len(mem@, a as int, na),
            is_c_len(mem@, b as int, nb),
            a + na < mem.len(),
            b + nb < mem.len(),
            0 <= offset <= na,
            offset <= nb,
            forall|j: int| 0 <= j < offset ==> !#[trigger] stops_at(mem@, a as int, b as int, j),
        decreases na - offset,
    {
        let char_a = mem[a + offset];
        let char_b = mem[b + offset];
        assert(first_stop(mem@, a as int, b as int, offset as int) || offset < na);
        if char_a < char_b {
            assert(first_stop(mem@, a as int, b as int, offset as int));
            return -1;
        } else if char_a > char_b {
            assert(first_stop(mem@, a as int, b as int, offset as int));
            return 1;
        } else if char_a == 0 {
            assert(first_stop(mem@, a as int, b as int, offset as int));
            return 0;
        }
        offset += 1;
    }
}

/// Compares at most the first `n` bytes of the C strings at `a` and `b`.
pub fn strncmp(mem: &[u8], a: usize, b: usize, n: usize) -> (r: i32)
    requires
        terminated(mem@, a as int),
        terminated(mem@, b as int),
    ensures
        (exists|k: int| #[trigger] first_stop(mem@, a as int, b as int, k) && k < n) ==> exists|
            k: int,
        |
            #[trigger] first_stop(mem@, a as int, b as int, k) && k < n && r == sign(
                mem@[a + k] - mem@[b + k],
            ),
        (forall|k: int| 0 <= k < n ==> !#[trigger] stops_at(mem@, a as int, b as int, k)) ==> r
            == 0,
{
    if n == 0 {
        return 0;
    }
    let ghost na = choose|n: int| is_c_len(mem@, a as int, n);
    let ghost nb = choose|n: int| is_c_len(mem@, b as int, n);
    let mut offset: usize = 0;
    loop
        invariant
            is_c_len(mem@, a as int, na),
            is_c_len(mem@, b as int, nb),
            a + na < mem.len(),
            b + nb < mem.len(),
            0 <= offset <= na,
            offset <= nb,
            offset < n,
            forall|j: int| 0 <= j < offset ==> !#[trigger] stops_at(mem@, a as int, b as int, j),
        decreases na - offset,
    {
        let char_a = mem[a + offset];
        let char_b = mem[b + offset];
        assert(first_stop(mem@, a as int, b as int, offset as int) || offset < na);
        if char_a < char_b {
            assert(first_stop(mem@, a as int, b as int, offset as int));
            return -1;
        } else if char_a > char_b {
            assert(first_stop(mem@, a as int, b as int, offset as int));
            return 1;
        } else if char_a == 0 {
            assert(first_stop(mem@, a as int, b as int, offset as int));
            return 0;
        }
        offset += 1;
        if offset == n {
            assert forall|k: int| #[trigger]
                first_stop(mem@, a as int, b as int, k) implies k >= n by {
                if k < n {
                    assert(!stops_at(mem@, a as int, b as int, k));
                }
            }
            return 0;
        }
    }
}

/// Compares the `n` bytes at `a` with those at `b`.
pub fn memcmp(mem: &[u8], a: usize, b: usize, n: usize) -> (r: i32)
    requires
        a + n <= mem.len(),
        b + n <= mem.len(),
    ensures
        (exists|k: int| #[trigger] first_difference(mem@, a as int, b as int, n as int, k))
            ==> exists|k: int|
            #[trigger] first_difference(mem@, a as int, b as int, n as int, k) && r == sign(
                mem@[a + k] - mem@[b + k],
            ),
        (forall|k: int| 0 <= k < n ==> #[trigger] same_at(mem@, a as int, b as int, k)) ==> r == 0,
{
    let mut offset: usize = 0;
    while offset < n
        invariant
            a + n <= mem.len(),
            b + n <= mem.len(),
            offset <= n,
            forall|j: int| 0 <= j < offset ==> #[trigger] same_at(mem@, a as int, b as int, j),
        decreases n - offset,
    {
        let char_a = mem[a + offset];
        let char_b = mem[b + offset];
        if char_a != char_b {
            assert(first_difference(mem@, a as int, b as int, n as int, offset as int));
            assert(!same_at(mem@, a as int, b as int, offset as int));
            if char_a < char_b {
                return -1;
            } else {
                return 1;
            }
        }
        offset += 1;
    }
    assert forall|k: int| #[trigger]
        first_difference(mem@, a as int, b as int, n as int, k) implies false by {
        assert(same_at(mem@, a as int, b as int, k));
    }
    0
}

/// The first of the `size` bytes at `string` that equals `c`.
pub fn memchr(mem: &[u8], string: usize, c: u8, size: usize) -> (r: Option<usize>)
    requires
        string + size <= mem.len(),
    ensures
        r matches Some(p) ==> {
            &&& string <= p < string + size
            &&& mem@[p as int] == c
            &&& forall|j: int| string <= j < p ==> mem@[j] != c
        },
        r is None ==> forall|j: int| string <= j < string + size ==> mem@[j] != c,
{
    let mut i: usize = 0;
    while i < size
        invariant
            string + size <= mem.len(),
            i <= size,
            forall|j: int| string <= j < string + i ==> mem@[j] != c,
        decreases size - i,
    {
        if mem[string + i] == c {
            return Some(string + i);
        }
        i += 1;
    }
    None
}

/// The first byte of the C string at `string`, its terminating NUL
/// included, that equals `c`.
pub fn strchr(mem: &[u8], string: usize, c: u8) -> (r: Option<usize>)
    requires
        terminated(mem@, string as int),
    ensures
        r matches Some(p) ==> {
            &&& string <= p <= string + c_len(mem@, string as int)
            &&& mem@[p as int] == c
            &&& forall|j: int| string <= j < p ==> mem@[j] != c
        },
        r is None ==> forall|j: int|
            string <= j <= string + c_len(mem@, string as int) ==> mem@[j] != c,
{
    let len = strlen(mem, string);
    let mut offset: usize = 0;
    loop
        invariant
            len == c_len(mem@, string as int),
            is_c_len(mem@, string as int, len as int),
            string + len < mem.len(),
            offset <= len,
            forall|j: int| string <= j < string + offset ==> mem@[j] != c,
        decreases len - offset,
    {
        // When `c` is NUL, this finds the terminator.
        if mem[string + offset] == c {
            return Some(string + offset);
        }
        if offset == len {
            return None;
        }
        offset += 1;
    }
}

/// The last byte of the C string at `string`, its terminating NUL
/// included, that equals `c`.
pub fn strrchr(mem: &[u8], string: usize, c: u8) -> (r: Option<usize>)
    requires
        terminated(mem@, string as int),
    ensures
        r matches Some(p) ==> {
            &&& string <= p <= string + c_len(mem@, string as int)
            &&& mem@[p as int] == c
            &&& forall|j: int| p < j <= string + c_len(mem@, string as int) ==> mem@[j] != c
        },
        r is None ==> forall|j: int|
            string <= j <= string + c_len(mem@, string as int) ==> mem@[j] != c,
{
    let len = strlen(mem, string);
    let mut offset: usize = len;
    loop
        invariant
            len == c_len(mem@, string as int),
            string + len < mem.len(),
            offset <= len,
            forall|j: int| string + offset < j <= string + len ==> mem@[j] != c,
        decreases offset,
    {
        if mem[string + offset] == c {
            return Some(string + offset);
        }
        if offset == 0 {
            return None;
        }
        offset -= 1;
    }
}

/// Sets the `count` bytes at `dest` to `ch`, and returns `dest`.
pub fn memset(mem: &mut Vec<u8>, dest: usize, ch: u8, count: usize) -> (r: usize)
    requires
        dest + count <= old(mem).len(),
    ensures
        r == dest,
        final(mem)@.len() == old(mem)@.len(),
        forall|i: int|
            0 <= i < old(mem)@.len() ==> #[trigger] final(mem)@[i] == if dest <= i < dest + count {
                ch
            } else {
                old(mem)@[i]
            },
{
    let mut i: usize = 0;
    while i < count
        invariant
            dest + count <= mem.len(),
            mem@.len() == old(mem)@.len(),
            i <= count,
            forall|k: int|
                0 <= k < mem@.len() ==> #[trigger] mem@[k] == if dest <= k < dest + i {
                    ch
                } else {
                    old(mem)@[k]
                },
        decreases count - i,
    {
        mem.set(dest + i, ch);
        i += 1;
    }
    dest
}

/// The bytes at `dest` after the C string at `src`, terminator included,
/// was copied there over `before`.
pub open spec fn copied_string(before: Seq<u8>, dest: int, src: int, after: Seq<u8>) -> bool {
    let n = c_len(before, src);
    &&& after.len() == before.len()
    &&& forall|i: int|
        0 <= i < before.len() ==> #[trigger] after[i] == if dest <= i <= dest + n {
            before[src + (i - dest)]
        } else {
            before[i]
        }
}

/// The C string at `src` fits in `bufsz` bytes at `dest` and does not
/// overlap the place it is copied to.
pub open spec fn can_copy_string(mem: Seq<u8>, dest: int, src: int, bufsz: int) -> bool {
    let n = c_len(mem, src);
    &&& terminated(mem, src)
    &&& n < bufsz
    &&& 0 <= dest
    &&& dest + n < mem.len()
    &&& (dest + n < src || src + n < dest)
}

/// Copies the C string at `src`, terminator included, to `dest`, a buffer
/// of `bufsz` bytes, and returns `dest`.
pub fn strcpy(mem: &mut Vec<u8>, dest: usize, src: usize, bufsz: usize) -> (r: usize)
    requires
        can_copy_string(old(mem)@, dest as int, src as int, bufsz as int),
    ensures
        r == dest,
        copied_string(old(mem)@, dest as int, src as int, final(mem)@),
{
    let ghost n = c_len(mem@, src as int);
    let mut i: usize = 0;
    loop
        invariant
            is_c_len(old(mem)@, src as int, n),
            n == c_len(old(mem)@, src as int),
            src + n < mem.len(),
            dest + n < mem.len(),
            dest + n < src || src + n < dest,
            mem@.len() == old(mem)@.len(),
            i <= n,
            forall|k: int|
                0 <= k < mem@.len() ==> #[trigger] mem@[k] == if dest <= k < dest + i {
                    old(mem)@[src + (k - dest)]
                } else {
                    old(mem)@[k]
                },
        decreases n - i,
    {
        let c = mem[src + i];
        mem.set(dest + i, c);
        if c == 0 {
            return dest;
        }
        i += 1;
    }
}

/// Appends the C string at `src` to the C string at `dest`, a buffer of
/// `bufsz` bytes, and returns `dest`.
pub fn strcat(mem: &mut Vec<u8>, dest: usize, src: usize, bufsz: usize) -> (r: usize)
    requires
        terminated(old(mem)@, dest as int),
        c_len(old(mem)@, dest as int) <= bufsz,
        can_copy_string(
            old(mem)@,
            dest + c_len(old(mem)@, dest as int),
            src as int,
            bufsz - c_len(old(mem)@, dest as int),
        ),
    ensures
        r == dest,
        copied_string(old(mem)@, dest + c_len(old(mem)@, dest as int), src as int, final(mem)@),
{
    let dest_len = strlen(mem, dest);
    assert(dest + dest_len < mem@.len());
    assert(mem@.len() == mem.len());
    strcpy(mem, dest + dest_len, src, bufsz - dest_len);
    dest
}

/// The bytes after the `size` bytes at `src` were copied to `dest` over
/// `before`.
pub open spec fn moved(before: Seq<u8>, dest: int, src: int, size: int, after: Seq<u8>) -> bool {
    &&& after.len() == before.len()
    &&& forall|i: int|
        0 <= i < before.len() ==> #[trigger] after[i] == if dest <= i < dest + size {
            before[src + (i - dest)]
        } else {
            before[i]
        }
}

/// Copies the `size` bytes at `src` to `dest`, which may overlap, and
/// returns `dest`.
pub fn memmove(mem: &mut Vec<u8>, dest: usize, src: usize, size: usize) -> (r: usize)
    requires
        dest + size <= old(mem).len(),
        src + size <= old(mem).len(),
    ensures
        r == dest,
        moved(old(mem)@, dest as int, src as int, size as int, final(mem)@),
{
    if dest <= src {
        let mut i: usize = 0;
        while i < size
            invariant
                dest <= src,
                dest + size <= mem.len(),
                src + size <= mem.len(),
                mem@.len() == old(mem)@.len(),
                i <= size,
                forall|k: int|
                    0 <= k < mem@.len() ==> #[trigger] mem@[k] == if dest <= k < dest + i {
                        old(mem)@[src + (k - dest)]
                    } else {
                        old(mem)@[k]
                    },
            decreases size - i,
        {
            let c = mem[src + i];
            mem.set(dest + i, c);
            i += 1;
        }
    } else {
        let mut i: usize = size;
        while i > 0
            invariant
                dest > src,
                dest + size <= mem.len(),
                src + size <= mem.len(),
                mem@.len() == old(mem)@.len(),
                i <= size,
                forall|k: int|
                    0 <= k < mem@.len() ==> #[trigger] mem@[k] == if dest + i <= k < dest + size {
                        old(mem)@[src + (k - dest)]
                    } else {
                        old(mem)@[k]
                    },
            decreases i,
        {
            i -= 1;
            let c = mem[src + i];
            mem.set(dest + i, c);
        }
    }
    dest
}

/// Copies the `size` bytes at `src` to `dest` and returns `dest`.
pub fn memcpy(mem: &mut Vec<u8>, dest: usize, src: usize, size: usize) -> (r: usize)
    requires
        dest + size <= old(mem).len(),
        src + size <= old(mem).len(),
    ensures
        r == dest,
        moved(old(mem)@, dest as int, src as int, size as int, final(mem)@),
{
    memmove(mem, dest, src, size)
}

/// `k` is the length of the string at `s` counted up to at most `limit`
/// bytes: the bytes before it are not NUL, and it is `limit` or a NUL.
pub open spec fn is_bounded_len(mem: Seq<u8>, s: int, limit: int, k: int) -> bool {
    &&& 0 <= k <= limit
    &&& forall|j: int| s <= j < s + k ==> mem[j] != 0
    &&& k < limit ==> mem[s + k] == 0
}

/// The bytes up to `limit` of the string at `s` can be read: they lie in
/// memory, or a NUL inside memory ends the string first.
pub open spec fn readable_upto(mem: Seq<u8>, s: int, limit: int) -> bool {
    0 <= s && (s + limit <= mem.len() || terminated(mem, s))
}

/// Copies at most `size` bytes of the string at `src` to `dest`, and fills
/// the rest of the `size` bytes with NULs. Returns `dest`.
pub fn strncpy(mem: &mut Vec<u8>, dest: usize, src: usize, size: usize) -> (r: usize)
    requires
        readable_upto(old(mem)@, src as int, size as int),
        dest + size <= old(mem).len(),
        dest + size <= src || src + size <= dest,
    ensures
        r == dest,
        final(mem)@.len() == old(mem)@.len(),
        exists|k: int|
            #[trigger] is_bounded_len(old(mem)@, src as int, size as int, k) && forall|i: int|
                0 <= i < old(mem)@.len() ==> #[trigger] final(mem)@[i] == if dest <= i < dest
                    + k {
                    old(mem)@[src + (i - dest)]
                } else if dest + k <= i < dest + size {
                    0
                } else {
                    old(mem)@[i]
                },
{
    let mut end = false;
    let mut k: usize = 0;
    let mut i: usize = 0;
    while i < size
        invariant
            readable_upto(old(mem)@, src as int, size as int),
            dest + size <= mem.len(),
            dest + size <= src || src + size <= dest,
            mem@.len() == old(mem)@.len(),
            i <= size,
            k <= i,
            forall|j: int| src <= j < src + k ==> old(mem)@[j] != 0,
            end ==> k < i && old(mem)@[src + k] == 0,
            !end ==> k == i,
            forall|x: int|
                0 <= x < mem@.len() ==> #[trigger] mem@[x] == if dest <= x < dest + k {
                    old(mem)@[src + (x - dest)]
                } else if dest + k <= x < dest + i {
                    0
                } else {
                    old(mem)@[x]
                },
        decreases size - i,
    {
        if !end {
            proof {
                if !(src + size <= old(mem)@.len()) {
                    let n = choose|n: int| is_c_len(old(mem)@, src as int, n);
                    if i > n {
                        assert(old(mem)@[src + n] != 0);
                    }
                }
            }
            let c = mem[src + i];
            if c == 0 {
                end = true;
            } else {
                k = k + 1;
            }
            mem.set(dest + i, c);
        } else {
            mem.set(dest + i, 0);
        }
        i += 1;
    }
    assert(is_bounded_len(old(mem)@, src as int, size as int, k as int));
    dest
}

/// Appends at most `n` bytes of the string at `s2` to the C string at
/// `s1`, then a NUL, and returns `s1`.
pub fn strncat(mem: &mut Vec<u8>, s1: usize, s2: usize, n: usize) -> (r: usize)
    requires
        terminated(old(mem)@, s1 as int),
        readable_upto(old(mem)@, s2 as int, n as int),
        s1 + c_len(old(mem)@, s1 as int) + n < old(mem).len(),
        s1 + c_len(old(mem)@, s1 as int) + n < s2 || s2 + n < s1 + c_len(old(mem)@, s1 as int),
    ensures
        r == s1,
        final(mem)@.len() == old(mem)@.len(),
        exists|k: int|
            #[trigger] is_bounded_len(old(mem)@, s2 as int, n as int, k) && {
                let end = s1 + c_len(old(mem)@, s1 as int);
                forall|i: int|
                    0 <= i < old(mem)@.len() ==> #[trigger] final(mem)@[i] == if end <= i < end
                        + k {
                        old(mem)@[s2 + (i - end)]
                    } else if i == end + k {
                        0
                    } else {
                        old(mem)@[i]
                    }
            },
{
    let s1end = s1 + strlen(mem, s1);
    let ghost end = s1end as int;
    let mut i: usize = 0;
    while i < n
        invariant
            end == s1 + c_len(old(mem)@, s1 as int),
            s1end == end,
            readable_upto(old(mem)@, s2 as int, n as int),
            end + n < mem.len(),
            end + n < s2 || s2 + n < end,
            mem@.len() == old(mem)@.len(),
            i <= n,
            forall|j: int| s2 <= j < s2 + i ==> old(mem)@[j] != 0,
            forall|x: int|
                0 <= x < mem@.len() ==> #[trigger] mem@[x] == if end <= x < end + i {
                    old(mem)@[s2 + (x - end)]
                } else {
                    old(mem)@[x]
                },
        decreases n - i,
    {
        proof {
            if !(s2 + n <= old(mem)@.len()) {
                let m = choose|m: int| is_c_len(old(mem)@, s2 as int, m);
                if i > m {
                    assert(old(mem)@[s2 + m] != 0);
                }
            }
        }
        let c = mem[s2 + i];
        mem.set(s1end + i, c);
        if c == 0 {
            assert(is_bounded_len(old(mem)@, s2 as int, n as int, i as int));
            return s1;
        }
        i += 1;
    }
    mem.set(s1end + n, 0);
    assert(is_bounded_len(old(mem)@, s2 as int, n as int, n as int));
    s1
}

/// Copies the C string at `src` to `dst`, a buffer of `size` bytes,
/// truncating it to `size - 1` bytes and always ending it with a NUL.
/// Returns the length of the string at `src`.
pub fn strlcpy(mem: &mut Vec<u8>, dst: usize, src: usize, size: usize) -> (r: usize)
    requires
        size > 0,
        terminated(old(mem)@, src as int),
        dst + size <= old(mem).len(),
        dst + size <= src || src + c_len(old(mem)@, src as int) < dst,
    ensures
        r == c_len(old(mem)@, src as int),
        final(mem)@.len() == old(mem)@.len(),
        forall|i: int|
            0 <= i < old(mem)@.len() ==> #[trigger] final(mem)@[i] == if dst <= i <= dst + r && i
                < dst + size - 1 {
                old(mem)@[src + (i - dst)]
            } else if dst <= i <= dst + r && i == dst + size - 1 {
                0
            } else {
                old(mem)@[i]
            },
{
    let ghost n = c_len(old(mem)@, src as int);
    let mut i: usize = 0;
    loop
        invariant
            is_c_len(old(mem)@, src as int, n),
            n == c_len(old(mem)@, src as int),
            size > 0,
            src + n < mem.len(),
            dst + size <= mem.len(),
            dst + size <= src || src + n < dst,
            mem@.len() == old(mem)@.len(),
            i <= n,
            forall|x: int|
                0 <= x < mem@.len() ==> #[trigger] mem@[x] == if dst <= x < dst + i && x < dst
                    + size - 1 {
                    old(mem)@[src + (x - dst)]
                } else if dst <= x < dst + i && x == dst + size - 1 {
                    0
                } else {
                    old(mem)@[x]
                },
        decreases n - i,
    {
        let c = mem[src + i];
        if i < size - 1 {
            mem.set(dst + i, c);
        } else if i == size - 1 {
            mem.set(dst + i, 0);
        }
        if c == 0 {
            return i;
        }
        i += 1;
    }
}

/// `c` is one of the bytes of the C string at `charset`.
pub open spec fn in_c_str(mem: Seq<u8>, charset: int, c: u8) -> bool {
    exists|j: int| charset <= j < charset + c_len(mem, charset) && #[trigger] mem[j] == c
}

/// The length of the longest prefix of the C string at `s` that holds no
/// byte of the C string at `charset`.
pub fn strcspn(mem: &[u8], s: usize, charset: usize) -> (r: usize)
    requires
        terminated(mem@, s as int),
        terminated(mem@, charset as int),
    ensures
        r <= c_len(mem@, s as int),
        s + r < mem@.len(),
        forall|i: int| s <= i < s + r ==> !#[trigger] in_c_str(mem@, charset as int, mem@[i]),
        r < c_len(mem@, s as int) ==> in_c_str(mem@, charset as int, mem@[s + r]),
{
    let ghost ns = c_len(mem@, s as int);
    let nc = strlen(mem, charset);
    let mut i: usize = 0;
    loop
        invariant
            is_c_len(mem@, s as int, ns),
            ns == c_len(mem@, s as int),
            nc == c_len(mem@, charset as int),
            s + ns < mem.len(),
            charset + nc < mem.len(),
            i <= ns,
            forall|x: int| s <= x < s + i ==> !#[trigger] in_c_str(mem@, charset as int, mem@[x]),
        decreases ns - i,
    {
        let c = mem[s + i];
        if c == 0 {
            return i;
        }
        let mut j: usize = 0;
        while j < nc
            invariant
                ns == c_len(mem@, s as int),
                nc == c_len(mem@, charset as int),
                charset + nc < mem.len(),
                s + ns < mem.len(),
                i <= ns,
                c == mem@[s + i],
                forall|x: int|
                    s <= x < s + i ==> !#[trigger] in_c_str(mem@, charset as int, mem@[x]),
                j <= nc,
                forall|y: int| charset <= y < charset + j ==> mem@[y] != c,
            decreases nc - j,
        {
            if mem[charset + j] == c {
                assert(mem@[charset + j] == c);
                assert(in_c_str(mem@, charset as int, c));
                return i;
            }
            j += 1;
        }
        i += 1;
    }
}

/// The C string at `sub` occurs in the C string at `string` at offset `off`.
pub open spec fn occurs_at(mem: Seq<u8>, string: int, sub: int, off: int) -> bool {
    &&& 0 <= off
    &&& off + c_len(mem, sub) <= c_len(mem, string)
    &&& forall|j: int| 0 <= j < c_len(mem, sub) ==> #[trigger] mem[sub + j] == mem[string + off + j]
}

/// The first place where the C string at `substring` occurs in the C
/// string at `string`.
pub fn strstr(mem: &[u8], string: usize, substring: usize) -> (r: Option<usize>)
    requires
        terminated(mem@, string as int),
        terminated(mem@, substring as int),
    ensures
        r matches Some(p) ==> {
            &&& string <= p
            &&& occurs_at(mem@, string as int, substring as int, p - string)
            &&& forall|o: int|
                0 <= o < p - string ==> !occurs_at(mem@, string as int, substring as int, o)
        },
        r is None ==> forall|o: int|
            0 <= o ==> !occurs_at(mem@, string as int, substring as int, o),
{
    let ns = strlen(mem, string);
    let nb = strlen(mem, substring);
    let mut offset: usize = 0;
    loop
        invariant
            ns == c_len(mem@, string as int),
            nb == c_len(mem@, substring as int),
            string + ns < mem.len(),
            substring + nb < mem.len(),
            offset <= ns,
            forall|o: int|
                0 <= o < offset ==> !occurs_at(mem@, string as int, substring as int, o),
        decreases ns - offset,
    {
        let mut inner_offset: usize = 0;
        while inner_offset < nb && offset + inner_offset < ns && mem[string + offset
            + inner_offset] == mem[substring + inner_offset]
            invariant
                string + ns < mem.len(),
                substring + nb < mem.len(),
                offset <= ns,
                inner_offset <= nb,
                offset + inner_offset <= ns,
                forall|j: int|
                    0 <= j < inner_offset ==> #[trigger] mem@[substring + j] == mem@[string
                        + offset + j],
            decreases nb - inner_offset,
        {
            inner_offset += 1;
        }
        if inner_offset == nb {
            assert(occurs_at(mem@, string as int, substring as int, offset as int));
            return Some(string + offset);
        }
        if offset + inner_offset == ns {
            // The string ends inside this attempt, so every later one runs
            // out too.
            return None;
        }
        assert(!occurs_at(mem@, string as int, substring as int, offset as int)) by {
            assert(mem@[substring + inner_offset] != mem@[string + offset + inner_offset]);
        }
        offset += 1;
    }
}

} // verus!
