//! Classes of bytes and the scanning of runs of one class.

use vstd::prelude::*;
use crate::text::{unicode_alphabetic, unicode_whitespace};

verus! {

/// The classes of bytes that delimit the fields of a log line. A byte
/// counts as the character of the same code point.
#[derive(Clone, Copy, Debug)]
pub enum ByteClass {
    /// Alphabetic characters.
    Alphabetic,
    /// Whitespace characters.
    Space,
    /// Everything but whitespace.
    NonSpace,
    /// The decimal digits.
    Digit,
    /// The decimal digits and the colon.
    TimeChar,
    /// The bytes of a process name: everything but the opening bracket,
    /// the null byte and the line feed.
    ProcessName,
    /// The null byte and the line feed.
    Terminator,
    /// Everything but the null byte and the line feed.
    NotTerminator,
}

impl ByteClass {
    /// Whether the class holds the byte.
    pub open spec fn admits(self, byte: u8) -> bool {
        match self {
            ByteClass::Alphabetic => unicode_alphabetic(byte as char),
            ByteClass::Space => unicode_whitespace(byte as char),
            ByteClass::NonSpace => !unicode_whitespace(byte as char),
            ByteClass::Digit => 0x30 <= byte <= 0x39,
            ByteClass::TimeChar => 0x30 <= byte <= 0x39 || byte == 0x3A,
            ByteClass::ProcessName => byte != 0x5B && byte != 0x00 && byte != 0x0A,
            ByteClass::Terminator => byte == 0x00 || byte == 0x0A,
            ByteClass::NotTerminator => byte != 0x00 && byte != 0x0A,
        }
    }

    /// Whether the class holds the byte.
    pub fn holds(self, byte: u8) -> (r: bool)
        ensures
            r == self.admits(byte),
    {
        match self {
            ByteClass::Alphabetic => (byte as char).is_alphabetic(),
            ByteClass::Space => (byte as char).is_whitespace(),
            ByteClass::NonSpace => !(byte as char).is_whitespace(),
            ByteClass::Digit => 0x30 <= byte && byte <= 0x39,
            ByteClass::TimeChar => (0x30 <= byte && byte <= 0x39) || byte == 0x3A,
            ByteClass::ProcessName => byte != 0x5B && byte != 0x00 && byte != 0x0A,
            ByteClass::Terminator => byte == 0x00 || byte == 0x0A,
            ByteClass::NotTerminator => byte != 0x00 && byte != 0x0A,
        }
    }
}

/// Where the run of bytes of `class` that begins at `start` ends: the
/// position of the first byte from `start` on that is not of the class, or
/// the end of the bytes.
pub open spec fn run_end(bytes: Seq<u8>, start: int, class: ByteClass) -> int
    decreases bytes.len() - start,
{
    if 0 <= start < bytes.len() && class.admits(bytes[start]) {
        run_end(bytes, start + 1, class)
    } else {
        start
    }
}

/// A run ends at or after its start and, if it starts within the bytes,
/// within them.
pub proof fn lemma_run_end_bounds(bytes: Seq<u8>, start: int, class: ByteClass)
    ensures
        start <= run_end(bytes, start, class),
        0 <= start <= bytes.len() ==> run_end(bytes, start, class) <= bytes.len(),
    decreases bytes.len() - start,
{
    if 0 <= start < bytes.len() && class.admits(bytes[start]) {
        lemma_run_end_bounds(bytes, start + 1, class);
    }
}

/// Every byte of a run is of its class.
pub proof fn lemma_run_is_of_class(bytes: Seq<u8>, start: int, class: ByteClass, i: int)
    requires
        0 <= start <= i < run_end(bytes, start, class),
    ensures
        i < bytes.len(),
        class.admits(bytes[i]),
    decreases bytes.len() - start,
{
    if start < bytes.len() && class.admits(bytes[start]) && start < i {
        lemma_run_is_of_class(bytes, start + 1, class, i);
    }
}

/// Scans the run of bytes of `class` that begins at `start`.
pub fn scan(data: &[u8], start: usize, class: ByteClass) -> (end: usize)
    requires
        start <= data@.len(),
    ensures
        end == run_end(data@, start as int, class),
        start <= end <= data@.len(),
        forall|i: int| start <= i < end ==> class.admits(#[trigger] data@[i]),
{
    let mut i: usize = start;
    while i < data.len() && class.holds(data[i])
        invariant
            start <= i <= data@.len(),
            run_end(data@, start as int, class) == run_end(data@, i as int, class),
            forall|j: int| start <= j < i ==> class.admits(#[trigger] data@[j]),
        decreases data@.len() - i,
    {
        i = i + 1;
    }
    i
}

} // verus!
