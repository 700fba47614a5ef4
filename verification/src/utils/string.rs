use vstd::prelude::*;
use vstd::string::StringSliceAdditionalSpecFns;

verus! {

/// Ascii-only heap allocated owned string.
#[derive(Clone, Debug)]
pub struct KString {
    pub buf: Vec<u8>,
}

impl KString {
    pub open spec fn view(&self) -> Seq<u8> {
        self.buf@
    }

    pub fn new() -> (r: Self)
        ensures
            r@ == Seq::<u8>::empty(),
    {
        KString { buf: Vec::new() }
    }

    pub fn with_capacity(capacity: usize) -> (r: Self)
        ensures
            r@ == Seq::<u8>::empty(),
    {
        KString { buf: Vec::with_capacity(capacity) }
    }

    /// Copies the bytes of `string`.
    pub fn from_str(string: &str) -> (r: Self)
        ensures
            r@ == string.spec_bytes(),
    {
        let bytes = string.as_bytes();
        let mut allocated_string = Self::with_capacity(bytes.len());
        let mut i: usize = 0;
        while i < bytes.len()
            invariant
                i <= bytes@.len(),
                allocated_string@ == bytes@.subrange(0, i as int),
            decreases bytes@.len() - i,
        {
            allocated_string.buf.push(bytes[i]);
            i += 1;
        }
        assert(bytes@.subrange(0, bytes@.len() as int) =~= bytes@);
        allocated_string
    }

    /// Copies the bytes of a byte string.
    pub fn from_bytes(bytes: &[u8]) -> (r: Self)
        ensures
            r@ == bytes@,
    {
        let mut allocated_string = Self::with_capacity(bytes.len());
        let mut i: usize = 0;
        while i < bytes.len()
            invariant
                i <= bytes@.len(),
                allocated_string@ == bytes@.subrange(0, i as int),
            decreases bytes@.len() - i,
        {
            allocated_string.buf.push(bytes[i]);
            i += 1;
        }
        assert(bytes@.subrange(0, bytes@.len() as int) =~= bytes@);
        allocated_string
    }

    /// The bytes of the string.
    pub fn as_bytes(&self) -> (r: &[u8])
        ensures
            r@ == self@,
    {
        self.buf.as_slice()
    }

    pub fn push_byte(&mut self, value: u8)
        ensures
            final(self)@ == old(self)@.push(value),
    {
        self.buf.push(value);
    }

    pub fn len(&self) -> (r: usize)
        ensures
            r == self@.len(),
    {
        self.buf.len()
    }

    pub fn is_empty(&self) -> (r: bool)
        ensures
            r == (self@.len() == 0),
    {
        self.buf.len() == 0
    }

    /// The characters of the string, one per byte.
    pub fn chars(&self) -> (r: Vec<char>)
        ensures
            r@.len() == self@.len(),
            forall|i: int| 0 <= i < self@.len() ==> r@[i] as u32 == self@[i] as u32,
    {
        let mut r: Vec<char> = Vec::new();
        let mut i: usize = 0;
        while i < self.buf.len()
            invariant
                i <= self@.len(),
                r@.len() == i,
                forall|j: int| 0 <= j < i ==> r@[j] as u32 == self@[j] as u32,
            decreases self@.len() - i,
        {
            let b = self.buf[i];
            r.push(b as char);
            i += 1;
        }
        r
    }

    /// Whether the string holds exactly the bytes of `other`.
    pub fn eq_bytes(&self, other: &[u8]) -> (r: bool)
        ensures
            r == (self@ == other@),
    {
        bytes_equal(self.buf.as_slice(), other)
    }
}

/// Whether two byte strings are equal.
pub fn bytes_equal(a: &[u8], b: &[u8]) -> (r: bool)
    ensures
        r == (a@ == b@),
{
    if a.len() != b.len() {
        return false;
    }
    let mut i: usize = 0;
    while i < a.len()
        invariant
            a@.len() == b@.len(),
            i <= a@.len(),
            forall|j: int| 0 <= j < i ==> a@[j] == b@[j],
        decreases a@.len() - i,
    {
        if a[i] != b[i] {
            return false;
        }
        i += 1;
    }
    assert(a@ =~= b@);
    true
}

/// Whether `prefix` is a prefix of `s`.
pub fn bytes_starts_with(s: &[u8], prefix: &[u8]) -> (r: bool)
    ensures
        r == (prefix@.len() <= s@.len() && s@.subrange(0, prefix@.len() as int) == prefix@),
{
    if prefix.len() > s.len() {
        return false;
    }
    let mut i: usize = 0;
    while i < prefix.len()
        invariant
            prefix@.len() <= s@.len(),
            i <= prefix@.len(),
            forall|j: int| 0 <= j < i ==> s@[j] == prefix@[j],
        decreases prefix@.len() - i,
    {
        if s[i] != prefix[i] {
            assert(s@.subrange(0, prefix@.len() as int)[i as int] != prefix@[i as int]);
            return false;
        }
        i += 1;
    }
    assert(s@.subrange(0, prefix@.len() as int) =~= prefix@);
    true
}

} // verus!

verus! {

/// Whether `b` continues a multi-byte UTF-8 sequence.
pub open spec fn utf8_continuation(b: u8) -> bool {
    0x80 <= b <= 0xBF
}

/// Length of the well-formed UTF-8 sequence that `s` starts with, after RFC 3629; 0 if it
/// starts with none.
pub open spec fn utf8_first_len(s: Seq<u8>) -> int {
    let b0 = s[0];
    if b0 <= 0x7F {
        1
    } else if 0xC2 <= b0 <= 0xDF && s.len() >= 2 && utf8_continuation(s[1]) {
        2
    } else if s.len() >= 3 && ((b0 == 0xE0 && 0xA0 <= s[1] <= 0xBF) || (0xE1 <= b0 <= 0xEC && utf8_continuation(s[1]))
        || (b0 == 0xED && 0x80 <= s[1] <= 0x9F) || (0xEE <= b0 <= 0xEF && utf8_continuation(s[1])))
        && utf8_continuation(s[2]) {
        3
    } else if s.len() >= 4 && ((b0 == 0xF0 && 0x90 <= s[1] <= 0xBF) || (0xF1 <= b0 <= 0xF3 && utf8_continuation(s[1]))
        || (b0 == 0xF4 && 0x80 <= s[1] <= 0x8F)) && utf8_continuation(s[2]) && utf8_continuation(s[3]) {
        4
    } else {
        0
    }
}

/// Whether `s` is well-formed UTF-8: a run of well-formed sequences.
pub open spec fn utf8_valid(s: Seq<u8>) -> bool
    decreases s.len(),
{
    if s.len() == 0 {
        true
    } else {
        let n = utf8_first_len(s);
        n > 0 && n <= s.len() && utf8_valid(s.subrange(n, s.len() as int))
    }
}

/// Whether `bytes` is UTF-8, as `core::str::from_utf8` decides: it accepts a slice exactly
/// when the slice is well-formed UTF-8.
#[verifier::external_body]
pub(crate) fn is_utf8(bytes: &[u8]) -> (r: bool)
    ensures
        r == utf8_valid(bytes@),
{
    core::str::from_utf8(bytes).is_ok()
}

} // verus!
