use vstd::prelude::*;

verus! {

/// A 0-based byte offset within a file.
#[derive(Copy, Clone, Debug, PartialEq, Eq, Structural, Hash)]
pub struct Offset(pub u32);

/// A half-open byte range `[start, end)` within a file.
#[derive(Copy, Clone, Debug, PartialEq, Eq, Structural, Hash)]
pub struct Span {
    pub start: Offset,
    pub end: Offset,
}

/// A 1-based line and column position.
#[derive(Copy, Clone, Debug, PartialEq, Eq, Structural, Hash)]
pub struct LineColumn {
    /// 1-based line number
    pub line: u32,
    /// 1-based column number
    pub column: u32,
}

impl Offset {
    pub open spec fn value(self) -> nat {
        self.0 as nat
    }

    /// Moves the offset forward by `len` bytes.
    pub fn add_len(self, len: u32) -> (r: Offset)
        requires
            self.value() + len <= u32::MAX,
        ensures
            r.value() == self.value() + len,
    {
        Offset(self.0 + len)
    }

    /// The number of bytes from `other` up to `self`.
    pub fn len_since(self, other: Offset) -> (r: u32)
        requires
            other.value() <= self.value(),
        ensures
            r == self.value() - other.value(),
    {
        self.0 - other.0
    }

    /// Builds an offset from a `usize`, which must be below `u32::MAX`.
    pub fn from_usize(value: usize) -> (r: Offset)
        requires
            value < u32::MAX,
        ensures
            r.value() == value,
    {
        Offset(value as u32)
    }

    pub fn as_usize(self) -> (r: usize)
        ensures
            r == self.value(),
    {
        self.0 as usize
    }
}

impl From<u32> for Offset {
    fn from(value: u32) -> (r: Offset) {
        Offset(value)
    }
}

impl vstd::std_specs::convert::FromSpecImpl<u32> for Offset {
    open spec fn obeys_from_spec() -> bool {
        true
    }

    open spec fn from_spec(v: u32) -> Offset {
        Offset(v)
    }
}

impl From<Offset> for u32 {
    fn from(value: Offset) -> (r: u32) {
        value.0
    }
}

impl vstd::std_specs::convert::FromSpecImpl<Offset> for u32 {
    open spec fn obeys_from_spec() -> bool {
        true
    }

    open spec fn from_spec(v: Offset) -> u32 {
        v.0
    }
}

impl Span {
    /// A span is well formed when it does not end before it starts.
    pub open spec fn wf(self) -> bool {
        self.start.value() <= self.end.value()
    }

    pub open spec fn spec_len(self) -> int {
        self.end.value() - self.start.value()
    }

    /// Builds the span `[start, end)`.
    pub fn from(start: u32, end: u32) -> (r: Span)
        requires
            start <= end,
        ensures
            r.start.value() == start,
            r.end.value() == end,
            r.wf(),
    {
        Span { start: Offset(start), end: Offset(end) }
    }

    /// Returns a 0-length span at the start of this span.
    pub fn start(self) -> (r: Span)
        ensures
            r.start == self.start,
            r.end == self.start,
            r.wf(),
    {
        Span { start: self.start, end: self.start }
    }

    /// The empty span at the start of the file.
    pub fn zero() -> (r: Span)
        ensures
            r.start.value() == 0,
            r.end.value() == 0,
            r.wf(),
    {
        Span { start: Offset(0), end: Offset(0) }
    }

    /// The number of bytes the span covers.
    pub fn len(self) -> (r: u32)
        requires
            self.wf(),
        ensures
            r == self.spec_len(),
    {
        self.end.len_since(self.start)
    }

    /// The span from the start of `self` to the end of `other`; `other` must be
    /// `self` or lie wholly after it.
    pub fn to(self, other: Span) -> (r: Span)
        requires
            self.wf(),
            other.wf(),
            self == other || self.end.value() <= other.start.value(),
        ensures
            r == (Span { start: self.start, end: other.end }),
            r.wf(),
    {
        Span { start: self.start, end: other.end }
    }
}

} // verus!
