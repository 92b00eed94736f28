use touchhle::frameworks::core_foundation::cf_string::{
    CFStringConvertEncodingToNSStringEncoding, CFStringConvertNSStringEncodingToEncoding,
    kCFStringEncodingASCII, kCFStringEncodingUTF16, kCFStringEncodingUTF16BE,
    kCFStringEncodingUTF16LE, kCFStringEncodingUTF8, NSASCIIStringEncoding,
    NSUTF16BigEndianStringEncoding, NSUTF16LittleEndianStringEncoding, NSUTF16StringEncoding,
    NSUTF8StringEncoding,
};
use touchhle::libc::generic_char::{
    memchr, memcmp, memcpy, memmove, memset, strcat, strchr, strcmp, strcpy, strcspn, strlcpy,
    strlen, strncat, strncmp, strncpy, strrchr, strstr,
};
use touchhle::libc::stdlib::{
    arc4random, atoi, atol, bsearch_narrow, bsearch_probe, bsearch_start, calloc, free, malloc, prng,
    rand, random, skip_whitespace, srand, srandom, strtoul, SearchRange, SearchStep, State,
    RAND_MAX, ULONG_MAX,
};
use touchhle::mem::allocator::{AllocError, Allocator};

/// Guest memory holding `parts` one after another, each followed by a NUL,
/// with the offset of each part.
fn memory(parts: &[&str]) -> (Vec<u8>, Vec<usize>) {
    let mut mem = Vec::new();
    let mut offsets = Vec::new();
    for p in parts {
        offsets.push(mem.len());
        mem.extend_from_slice(p.as_bytes());
        mem.push(0);
    }
    (mem, offsets)
}

#[test]
fn strlen_counts_to_nul() {
    let (mem, o) = memory(&["hello", "", "a"]);
    assert_eq!(strlen(&mem, o[0]), 5);
    assert_eq!(strlen(&mem, o[1]), 0);
    assert_eq!(strlen(&mem, o[2]), 1);
    assert_eq!(strlen(&mem, o[0] + 3), 2);
}

#[test]
fn strcmp_orders_strings() {
    let (mem, o) = memory(&["abc", "abd", "ab", "abc"]);
    assert_eq!(strcmp(&mem, o[0], o[1]), -1);
    assert_eq!(strcmp(&mem, o[1], o[0]), 1);
    assert_eq!(strcmp(&mem, o[0], o[2]), 1);
    assert_eq!(strcmp(&mem, o[2], o[0]), -1);
    assert_eq!(strcmp(&mem, o[0], o[3]), 0);
}

#[test]
fn strncmp_stops_after_n() {
    let (mem, o) = memory(&["abcx", "abcy", "ab"]);
    assert_eq!(strncmp(&mem, o[0], o[1], 3), 0);
    assert_eq!(strncmp(&mem, o[0], o[1], 4), -1);
    assert_eq!(strncmp(&mem, o[1], o[0], 10), 1);
    assert_eq!(strncmp(&mem, o[0], o[1], 0), 0);
    assert_eq!(strncmp(&mem, o[2], o[0], 5), -1);
}

#[test]
fn memcmp_compares_bytes() {
    let mem = vec![1u8, 2, 3, 1, 2, 4, 0, 0];
    assert_eq!(memcmp(&mem, 0, 3, 2), 0);
    assert_eq!(memcmp(&mem, 0, 3, 3), -1);
    assert_eq!(memcmp(&mem, 3, 0, 3), 1);
    assert_eq!(memcmp(&mem, 6, 7, 1), 0);
    assert_eq!(memcmp(&mem, 0, 5, 0), 0);
}

#[test]
fn memchr_finds_first() {
    let mem = b"abcabc".to_vec();
    assert_eq!(memchr(&mem, 0, b'c', 6), Some(2));
    assert_eq!(memchr(&mem, 3, b'a', 3), Some(3));
    assert_eq!(memchr(&mem, 0, b'c', 2), None);
    assert_eq!(memchr(&mem, 0, b'z', 6), None);
}

#[test]
fn strchr_and_strrchr() {
    let (mem, o) = memory(&["banana"]);
    assert_eq!(strchr(&mem, o[0], b'a'), Some(1));
    assert_eq!(strrchr(&mem, o[0], b'a'), Some(5));
    assert_eq!(strchr(&mem, o[0], b'z'), None);
    assert_eq!(strrchr(&mem, o[0], b'z'), None);
    assert_eq!(strchr(&mem, o[0], 0), Some(6));
    assert_eq!(strrchr(&mem, o[0], 0), Some(6));
    assert_eq!(strrchr(&mem, o[0], b'b'), Some(0));
}

#[test]
fn memset_fills_range() {
    let mut mem = vec![9u8; 8];
    assert_eq!(memset(&mut mem, 2, 0, 3), 2);
    assert_eq!(mem, vec![9, 9, 0, 0, 0, 9, 9, 9]);
}

#[test]
fn strcpy_and_strcat() {
    let mut mem = vec![0u8; 32];
    mem[20..24].copy_from_slice(b"abc\0");
    mem[24..27].copy_from_slice(b"de\0");
    assert_eq!(strcpy(&mut mem, 0, 20, 10), 0);
    assert_eq!(&mem[0..4], b"abc\0");
    assert_eq!(strcat(&mut mem, 0, 24, 10), 0);
    assert_eq!(&mem[0..6], b"abcde\0");
    assert_eq!(strlen(&mem, 0), 5);
}

#[test]
fn prng_is_xorshift32() {
    assert_eq!(prng(1), 270369);
    assert_eq!(prng(0), prng(1));
    let mut x: u32 = 12345;
    x ^= x << 13;
    x ^= x >> 17;
    x ^= x << 5;
    assert_eq!(prng(12345), x);
}

#[test]
fn rand_family_uses_separate_states() {
    let mut s = State::default();
    let r1 = rand(&mut s);
    assert_eq!(r1, (prng(0) & 0x7FFF_FFFF) as i32);
    let r2 = rand(&mut s);
    assert_eq!(r2, (prng(prng(0)) & 0x7FFF_FFFF) as i32);
    assert!(r1 >= 0 && r1 <= RAND_MAX && r2 >= 0 && r2 <= RAND_MAX);
    assert_eq!(random(&mut s), r1);
    assert_eq!(arc4random(&mut s), prng(0));
    srand(&mut s, 42);
    srandom(&mut s, 42);
    let a = rand(&mut s);
    assert_eq!(random(&mut s), a);
    assert_eq!(a, (prng(42) & 0x7FFF_FFFF) as i32);
}

#[test]
fn malloc_calloc_free() {
    let mut a = Allocator::new();
    let p = malloc(&mut a, 10);
    assert_eq!(p, 0x1000);
    assert_eq!(a.find_allocated_chunk(p).unwrap().size(), 16);
    let q = calloc(&mut a, 4, 8);
    assert_eq!(a.find_allocated_chunk(q).unwrap().size(), 32);
    assert_eq!(calloc(&mut a, 0x10000, 0x10000), 0);
    assert_eq!(malloc(&mut a, 0xFFFF_FFFF), 0);
    assert_eq!(free(&mut a, 0), Ok(()));
    assert_eq!(free(&mut a, p), Ok(()));
    assert_eq!(free(&mut a, p), Err(AllocError::UnknownAllocation));
}

#[test]
fn string_encoding_conversions() {
    let pairs = [
        (kCFStringEncodingASCII, NSASCIIStringEncoding),
        (kCFStringEncodingUTF8, NSUTF8StringEncoding),
        (kCFStringEncodingUTF16, NSUTF16StringEncoding),
        (kCFStringEncodingUTF16BE, NSUTF16BigEndianStringEncoding),
        (kCFStringEncodingUTF16LE, NSUTF16LittleEndianStringEncoding),
    ];
    for (cf, ns) in pairs {
        assert_eq!(CFStringConvertEncodingToNSStringEncoding(cf), Some(ns));
        assert_eq!(CFStringConvertNSStringEncodingToEncoding(ns), Some(cf));
    }
    assert_eq!(CFStringConvertEncodingToNSStringEncoding(0x1234), None);
    assert_eq!(CFStringConvertNSStringEncodingToEncoding(0x1234), None);
}

#[test]
fn memmove_handles_overlap() {
    let mut mem = b"abcdefgh".to_vec();
    assert_eq!(memmove(&mut mem, 2, 0, 4), 2);
    assert_eq!(mem, b"ababcdgh".to_vec());
    let mut mem = b"abcdefgh".to_vec();
    assert_eq!(memmove(&mut mem, 0, 2, 4), 0);
    assert_eq!(mem, b"cdefefgh".to_vec());
    let mut mem = b"abcdefgh".to_vec();
    assert_eq!(memcpy(&mut mem, 4, 0, 3), 4);
    assert_eq!(mem, b"abcdabch".to_vec());
}

#[test]
fn strncpy_pads_and_truncates() {
    let mut mem = vec![0xFFu8; 16];
    mem[10..13].copy_from_slice(b"ab\0");
    assert_eq!(strncpy(&mut mem, 0, 10, 5), 0);
    assert_eq!(&mem[0..6], &[b'a', b'b', 0, 0, 0, 0xFF]);
    let mut mem = vec![0xFFu8; 16];
    mem[8..15].copy_from_slice(b"abcdef\0");
    assert_eq!(strncpy(&mut mem, 0, 8, 3), 0);
    assert_eq!(&mem[0..4], &[b'a', b'b', b'c', 0xFF]);
}

#[test]
fn strncat_appends_at_most_n() {
    let mut mem = vec![0xFFu8; 16];
    mem[0..3].copy_from_slice(b"ab\0");
    mem[10..15].copy_from_slice(b"cdef\0");
    assert_eq!(strncat(&mut mem, 0, 10, 2), 0);
    assert_eq!(&mem[0..5], b"abcd\0");
    assert_eq!(strncat(&mut mem, 0, 10, 9), 0);
    assert_eq!(&mem[0..9], b"abcdcdef\0");
}

#[test]
fn strlcpy_truncates_and_reports_length() {
    let mut mem = vec![0xFFu8; 16];
    mem[8..14].copy_from_slice(b"hello\0");
    assert_eq!(strlcpy(&mut mem, 0, 8, 3), 5);
    assert_eq!(&mem[0..4], &[b'h', b'e', 0, 0xFF]);
    let mut mem2 = vec![0xFFu8; 16];
    mem2[8..14].copy_from_slice(b"hello\0");
    assert_eq!(strlcpy(&mut mem2, 0, 8, 8), 5);
    assert_eq!(&mem2[0..7], &[b'h', b'e', b'l', b'l', b'o', 0, 0xFF]);
    let mut mem3 = vec![0xFFu8; 16];
    mem3[8..14].copy_from_slice(b"hello\0");
    assert_eq!(strlcpy(&mut mem3, 0, 8, 1), 5);
    assert_eq!(&mem3[0..2], &[0, 0xFF]);
}

#[test]
fn strcspn_counts_until_charset() {
    let (mem, o) = memory(&["hello", "lo", "xyz", ""]);
    assert_eq!(strcspn(&mem, o[0], o[1]), 2);
    assert_eq!(strcspn(&mem, o[0], o[2]), 5);
    assert_eq!(strcspn(&mem, o[3], o[1]), 0);
    assert_eq!(strcspn(&mem, o[0], o[3]), 5);
}

#[test]
fn strstr_finds_first_occurrence() {
    let (mem, o) = memory(&["hello world", "o w", "", "world!", "o", "aab", "ab"]);
    assert_eq!(strstr(&mem, o[0], o[1]), Some(o[0] + 4));
    assert_eq!(strstr(&mem, o[0], o[2]), Some(o[0]));
    assert_eq!(strstr(&mem, o[0], o[3]), None);
    assert_eq!(strstr(&mem, o[0], o[4]), Some(o[0] + 4));
    assert_eq!(strstr(&mem, o[5], o[6]), Some(o[5] + 1));
    assert_eq!(strstr(&mem, o[2], o[4]), None);
}

#[test]
fn skip_whitespace_stops_at_first_other_byte() {
    let (mem, o) = memory(&[" \t\n\x0b\x0c\rx", "", "y"]);
    assert_eq!(skip_whitespace(&mem, o[0]), o[0] + 6);
    assert_eq!(skip_whitespace(&mem, o[1]), o[1]);
    assert_eq!(skip_whitespace(&mem, o[2]), o[2]);
}

#[test]
fn atoi_reads_decimal_prefix() {
    let cases: [(&str, i32); 12] = [
        ("42", 42),
        ("  -17abc", -17),
        ("+5", 5),
        ("abc", 0),
        ("-", 0),
        ("", 0),
        ("2147483647", i32::MAX),
        ("-2147483648", i32::MIN),
        ("2147483648", 0),
        (" \x0b\t\n 7", 7),
        ("99999999999", 0),
        ("+-3", 0),
    ];
    for (text, expected) in cases {
        let (mem, o) = memory(&[text]);
        assert_eq!(atoi(&mem, o[0]), expected, "atoi({:?})", text);
        assert_eq!(atol(&mem, o[0]), expected, "atol({:?})", text);
    }
}

#[test]
fn strtoul_reads_hexadecimal() {
    let cases: [(&str, u32); 12] = [
        ("0x1F", 31),
        ("ff", 255),
        ("0x0x10", 16),
        ("+a", 10),
        ("", ULONG_MAX),
        ("0x", ULONG_MAX),
        ("xyz", ULONG_MAX),
        ("100000000", ULONG_MAX),
        ("FFFFFFFE", 0xFFFF_FFFE),
        ("+", ULONG_MAX),
        ("1 2", ULONG_MAX),
        ("-1", ULONG_MAX),
    ];
    for (text, expected) in cases {
        let (mem, o) = memory(&["pad", text]);
        assert_eq!(strtoul(&mem, o[1], 16), (expected, o[1] + text.len()), "strtoul({:?})", text);
    }
}

fn search(items: &[i32], key: i32) -> Option<u32> {
    let mut range = bsearch_start(items.len() as u32);
    let mut steps = 0;
    while let Some(i) = bsearch_probe(range) {
        steps += 1;
        assert!(steps <= 40);
        let cmp = (key - items[i as usize]).signum();
        match bsearch_narrow(range, cmp) {
            SearchStep::Found(at) => return Some(at),
            SearchStep::Continue(next) => range = next,
        }
    }
    None
}

#[test]
fn bsearch_steps_find_keys() {
    let items = [1, 3, 5, 7, 9, 11];
    for (idx, &k) in items.iter().enumerate() {
        assert_eq!(search(&items, k), Some(idx as u32));
    }
    assert_eq!(search(&items, 4), None);
    assert_eq!(search(&items, 0), None);
    assert_eq!(search(&items, 12), None);
    assert_eq!(search(&[], 1), None);
    let r = SearchRange { low: 2, len: 5 };
    assert_eq!(bsearch_probe(r), Some(4));
    assert_eq!(bsearch_narrow(r, 1), SearchStep::Continue(SearchRange { low: 5, len: 2 }));
    assert_eq!(bsearch_narrow(r, -1), SearchStep::Continue(SearchRange { low: 2, len: 2 }));
    assert_eq!(bsearch_narrow(r, 0), SearchStep::Found(4));
    assert_eq!(bsearch_probe(SearchRange { low: 3, len: 0 }), None);
}
