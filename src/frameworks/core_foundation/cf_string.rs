//! `CFString` encoding constants and their `NSString` counterparts.
#![allow(non_snake_case, non_upper_case_globals)]
use vstd::prelude::*;

verus! {

pub const kCFStringEncodingASCII: u32 = 0x600;
pub const kCFStringEncodingUTF8: u32 = 0x8000100;
pub const kCFStringEncodingUnicode: u32 = 0x100;
pub const kCFStringEncodingUTF16: u32 = 0x100;
pub const kCFStringEncodingUTF16BE: u32 = 0x10000100;
pub const kCFStringEncodingUTF16LE: u32 = 0x14000100;

pub const NSASCIIStringEncoding: u32 = 1;
pub const NSUTF8StringEncoding: u32 = 4;
pub const NSUTF16StringEncoding: u32 = 10;
pub const NSUTF16BigEndianStringEncoding: u32 = 0x90000100;
pub const NSUTF16LittleEndianStringEncoding: u32 = 0x94000100;

/// The pairs of a `CFStringEncoding` and the `NSStringEncoding` it stands for.
pub open spec fn encoding_pair(cf: u32, ns: u32) -> bool {
    ||| cf == kCFStringEncodingASCII && ns == NSASCIIStringEncoding
    ||| cf == kCFStringEncodingUTF8 && ns == NSUTF8StringEncoding
    ||| cf == kCFStringEncodingUTF16 && ns == NSUTF16StringEncoding
    ||| cf == kCFStringEncodingUTF16BE && ns == NSUTF16BigEndianStringEncoding
    ||| cf == kCFStringEncodingUTF16LE && ns == NSUTF16LittleEndianStringEncoding
}

/// The `NSStringEncoding` for `encoding`, or `None` for an encoding that is
/// not handled.
pub fn CFStringConvertEncodingToNSStringEncoding(encoding: u32) -> (r: Option<u32>)
    ensures
        r matches Some(ns) ==> encoding_pair(encoding, ns),
        r is None ==> forall|ns: u32| !encoding_pair(encoding, ns),
{
    if encoding == kCFStringEncodingASCII {
        Some(NSASCIIStringEncoding)
    } else if encoding == kCFStringEncodingUTF8 {
        Some(NSUTF8StringEncoding)
    } else if encoding == kCFStringEncodingUTF16 {
        Some(NSUTF16StringEncoding)
    } else if encoding == kCFStringEncodingUTF16BE {
        Some(NSUTF16BigEndianStringEncoding)
    } else if encoding == kCFStringEncodingUTF16LE {
        Some(NSUTF16LittleEndianStringEncoding)
    } else {
        None
    }
}

/// The `CFStringEncoding` for `encoding`, or `None` for an encoding that is
/// not handled.
pub fn CFStringConvertNSStringEncodingToEncoding(encoding: u32) -> (r: Option<u32>)
    ensures
        r matches Some(cf) ==> encoding_pair(cf, encoding),
        r is None ==> forall|cf: u32| !encoding_pair(cf, encoding),
{
    if encoding == NSASCIIStringEncoding {
        Some(kCFStringEncodingASCII)
    } else if encoding == NSUTF8StringEncoding {
        Some(kCFStringEncodingUTF8)
    } else if encoding == NSUTF16StringEncoding {
        Some(kCFStringEncodingUTF16)
    } else if encoding == NSUTF16BigEndianStringEncoding {
        Some(kCFStringEncodingUTF16BE)
    } else if encoding == NSUTF16LittleEndianStringEncoding {
        Some(kCFStringEncodingUTF16LE)
    } else {
        None
    }
}

/// Converting an encoding to `NSStringEncoding` and back gives it again.
pub proof fn lemma_encoding_round_trip(cf: u32, ns: u32)
    requires
        encoding_pair(cf, ns),
    ensures
        forall|cf2: u32| encoding_pair(cf2, ns) ==> cf2 == cf,
        forall|ns2: u32| encoding_pair(cf, ns2) ==> ns2 == ns,
{
}

} // verus!
