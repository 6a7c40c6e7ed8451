//! Byte-range specifications and the collection a parsed `Range` header holds.

use smallvec::SmallVec;
use vstd::prelude::*;

verus! {

/// The storage of a `Range`: a `SmallVec` that keeps up to two specs inline.
#[verifier::external_body]
#[derive(Debug, PartialEq, Eq)]
pub struct SpecVec {
    inner: SmallVec<[RangeSpec; 2]>,
}

impl Clone for SpecVec {
    /// Relies on `SmallVec::clone`.
    #[verifier::external_body]
    fn clone(&self) -> Self {
        SpecVec { inner: self.inner.clone() }
    }
}

/// The specs held by a `SpecVec`, in order.
pub uninterp spec fn held_specs(v: SpecVec) -> Seq<RangeSpec>;

/// Relies on `SmallVec::from_vec`: the items are kept in order; it copies
/// them inline or takes over the vector's buffer, and allocates nothing.
#[verifier::external_body]
fn specs_from_vec(items: Vec<RangeSpec>) -> (r: SpecVec)
    ensures
        held_specs(r) == items@,
{
    SpecVec { inner: SmallVec::from_vec(items) }
}

/// Relies on `SmallVec::as_slice`: the slice shows the items in order.
#[verifier::external_body]
fn specs_slice(v: &SpecVec) -> (r: &[RangeSpec])
    ensures
        r@ == held_specs(*v),
{
    v.inner.as_slice()
}

/// One requested byte range.
#[derive(Debug, Copy, Clone, PartialEq, Eq, Structural)]
pub enum RangeSpec {
    /// Every byte from the given offset to the end of the resource.
    From(u64),
    /// The given number of bytes at the end of the resource.
    Last(u64),
    /// The bytes from the first offset to the second, both included.
    Full(u64, u64),
}

impl RangeSpec {
    /// The bound that `within` compares: the start of `From`, the count of
    /// `Last`, the end of `Full`.
    pub open spec fn limit(self) -> u64 {
        match self {
            RangeSpec::From(n) => n,
            RangeSpec::Last(n) => n,
            RangeSpec::Full(_, n) => n,
        }
    }

    /// A `Full` range does not end before it starts.
    pub open spec fn is_ordered(self) -> bool {
        match self {
            RangeSpec::Full(from, to) => from <= to,
            _ => true,
        }
    }

    /// `bounds` can compute its result without leaving the range of `u64`.
    pub open spec fn bounds_defined(self, length: u64) -> bool {
        match self {
            RangeSpec::From(i) => i <= length,
            RangeSpec::Last(k) => k <= length,
            RangeSpec::Full(i, j) => i <= j && j - i < u64::MAX,
        }
    }

    /// The offset of the first byte and the number of bytes covered, in a
    /// resource of `length` bytes.
    pub open spec fn span(self, length: u64) -> (int, int) {
        match self {
            RangeSpec::From(i) => (i as int, length - i),
            RangeSpec::Last(k) => (length - k, k as int),
            RangeSpec::Full(i, j) => (i as int, j - i + 1),
        }
    }

    /// Whether the bound that defines this range lies below `k`.
    pub fn within(&self, k: u64) -> (r: bool)
        ensures
            r == (self.limit() < k),
    {
        match *self {
            RangeSpec::From(n) => n < k,
            RangeSpec::Last(n) => n < k,
            RangeSpec::Full(_, n) => n < k,
        }
    }

    /// The `(offset, count)` pair this range covers in a resource of `length`
    /// bytes.
    pub fn bounds(&self, length: u64) -> (r: (u64, u64))
        requires
            self.bounds_defined(length),
        ensures
            r.0 as int == self.span(length).0,
            r.1 as int == self.span(length).1,
    {
        match *self {
            RangeSpec::From(i) => (i, length - i),
            RangeSpec::Last(k) => (length - k, k),
            RangeSpec::Full(i, j) => (i, j - i + 1),
        }
    }
}

/// Values that can be turned into an ordered list of items: one item, or an
/// array, slice or vector of them.
pub trait IntoCollection<T>: Sized {
    /// The items, in order.
    spec fn elements(&self) -> Seq<T>;

    /// The items as a vector, in order.
    fn into_collection(self) -> (r: Vec<T>)
        ensures
            r@ == self.elements(),
    ;
}

impl IntoCollection<RangeSpec> for RangeSpec {
    open spec fn elements(&self) -> Seq<RangeSpec> {
        seq![*self]
    }

    fn into_collection(self) -> (r: Vec<RangeSpec>) {
        let mut v: Vec<RangeSpec> = Vec::new();
        v.push(self);
        proof {
            assert(v@ =~= seq![self]);
        }
        v
    }
}

impl<'a> IntoCollection<RangeSpec> for &'a [RangeSpec] {
    open spec fn elements(&self) -> Seq<RangeSpec> {
        self@
    }

    fn into_collection(self) -> (r: Vec<RangeSpec>) {
        let mut v: Vec<RangeSpec> = Vec::new();
        let mut i: usize = 0;
        while i < self.len()
            invariant
                i <= self@.len(),
                v@ == self@.take(i as int),
            decreases self@.len() - i,
        {
            v.push(self[i]);
            i = i + 1;
            proof {
                assert(v@ =~= self@.take(i as int));
            }
        }
        proof {
            assert(self@.take(i as int) =~= self@);
        }
        v
    }
}

impl<'a, const N: usize> IntoCollection<RangeSpec> for &'a [RangeSpec; N] {
    open spec fn elements(&self) -> Seq<RangeSpec> {
        self@
    }

    fn into_collection(self) -> (r: Vec<RangeSpec>) {
        let s: &[RangeSpec] = self.as_slice();
        s.into_collection()
    }
}

impl IntoCollection<RangeSpec> for Vec<RangeSpec> {
    open spec fn elements(&self) -> Seq<RangeSpec> {
        self@
    }

    fn into_collection(self) -> (r: Vec<RangeSpec>) {
        self
    }
}

/// A parsed `Range` header. Only the `bytes` unit is supported.
#[derive(Debug, Clone, PartialEq, Eq)]
pub enum Range {
    /// The byte ranges in the order they were requested; duplicates and
    /// overlaps are kept.
    Bytes(SpecVec),
}

impl Range {
    /// The requested ranges, in order.
    pub open spec fn specs(self) -> Seq<RangeSpec> {
        match self {
            Range::Bytes(v) => held_specs(v),
        }
    }

    /// What a successful parse yields: at least one range, and every `Full`
    /// range ordered.
    pub open spec fn well_formed(self) -> bool {
        &&& self.specs().len() > 0
        &&& forall|k: int| 0 <= k < self.specs().len() ==> (#[trigger] self.specs()[k]).is_ordered()
    }

    /// A range over the given specs, kept in the order given.
    pub fn new<R: IntoCollection<RangeSpec>>(ranges: R) -> (r: Range)
        ensures
            r.specs() == ranges.elements(),
    {
        Range::Bytes(specs_from_vec(ranges.into_collection()))
    }

    /// The requested ranges as a slice.
    pub fn as_slice(&self) -> (r: &[RangeSpec])
        ensures
            r@ == self.specs(),
    {
        match self {
            Range::Bytes(v) => specs_slice(v),
        }
    }
}

impl core::ops::Deref for Range {
    type Target = [RangeSpec];

    /// The requested ranges as a slice, in order.
    fn deref(&self) -> (r: &[RangeSpec])
        ensures
            r@ == self.specs(),
    {
        self.as_slice()
    }
}

/// Whether the server accepts range requests, as sent in `Accept-Ranges`.
#[derive(Debug, Clone, Copy, PartialEq, Eq, Structural)]
pub enum AcceptRanges {
    /// Byte ranges are served: `bytes`.
    Bytes,
    /// Range requests are not served: `none`.
    NoRanges,
}

impl AcceptRanges {
    /// The header value for this answer.
    pub open spec fn spec_value(self) -> Seq<char> {
        match self {
            AcceptRanges::Bytes => "bytes"@,
            AcceptRanges::NoRanges => "none"@,
        }
    }

    /// The header's name and value.
    pub fn into_header(self) -> (r: (&'static str, &'static str))
        ensures
            r.0@ == "Accept-Ranges"@,
            r.1@ == self.spec_value(),
    {
        match self {
            AcceptRanges::Bytes => ("Accept-Ranges", "bytes"),
            AcceptRanges::NoRanges => ("Accept-Ranges", "none"),
        }
    }
}

/// The character of a decimal digit `d` (below ten).
pub open spec fn digit_char(d: nat) -> char {
    ('0' as nat + d) as char
}

/// The decimal digits of `n`, most significant first, without leading zeros.
pub open spec fn decimal_text(n: nat) -> Seq<char>
    decreases n,
{
    if n < 10 {
        seq![digit_char(n)]
    } else {
        decimal_text(n / 10).push(digit_char(n % 10))
    }
}

/// Relies on `u64`'s `ToString`, which goes through its `Display`: the value
/// in decimal, without sign or leading zeros.
#[verifier::external_body]
fn decimal(n: u64) -> (r: String)
    ensures
        r@ == decimal_text(n as nat),
{
    n.to_string()
}

/// The part of a resource a response carries, as sent in `Content-Range`.
#[derive(Debug, Clone, Copy, PartialEq, Eq, Structural)]
pub enum ContentRange {
    /// The first and last byte sent, and the full length if known.
    Bytes(u64, u64, Option<u64>),
    /// No requested range could be served; the full length.
    UnsatisfiableBytes(u64),
}

impl ContentRange {
    /// The header value: `bytes FROM-TO/LENGTH`, `bytes FROM-TO/*` or
    /// `bytes */LENGTH`.
    pub open spec fn spec_value(self) -> Seq<char> {
        match self {
            ContentRange::Bytes(from, to, Some(length)) => "bytes "@ + decimal_text(from as nat)
                + "-"@ + decimal_text(to as nat) + "/"@ + decimal_text(length as nat),
            ContentRange::Bytes(from, to, None) => "bytes "@ + decimal_text(from as nat) + "-"@
                + decimal_text(to as nat) + "/*"@,
            ContentRange::UnsatisfiableBytes(length) => "bytes */"@ + decimal_text(length as nat),
        }
    }

    /// The header's name and value.
    pub fn into_header(self) -> (r: (&'static str, String))
        ensures
            r.0@ == "Content-Range"@,
            r.1@ == self.spec_value(),
    {
        match self {
            ContentRange::Bytes(from, to, length) => {
                let mut v = String::from_str("bytes ");
                v.append(decimal(from).as_str());
                v.append("-");
                v.append(decimal(to).as_str());
                match length {
                    Some(n) => {
                        v.append("/");
                        v.append(decimal(n).as_str());
                    },
                    None => {
                        v.append("/*");
                    },
                }
                ("Content-Range", v)
            },
            ContentRange::UnsatisfiableBytes(length) => {
                let mut v = String::from_str("bytes */");
                v.append(decimal(length).as_str());
                ("Content-Range", v)
            },
        }
    }
}

/// The span starts inside a resource of `length` bytes and does not run past
/// its end.
pub open spec fn span_in_resource(span: (int, int), length: u64) -> bool {
    0 <= span.0 < length && 0 <= span.1 && span.0 + span.1 <= length
}

/// `within(length)` holds exactly when `bounds(length)` is defined and yields a
/// span inside the resource, for every ordered range except a suffix of zero
/// bytes or of exactly `length` bytes.
pub proof fn lemma_within_matches_bounds(spec: RangeSpec, length: u64)
    requires
        spec.is_ordered(),
        !(spec matches RangeSpec::Last(n) && (n == 0 || n == length)),
    ensures
        (spec.limit() < length) <==> (spec.bounds_defined(length) && span_in_resource(
            spec.span(length),
            length,
        )),
{
}

} // verus!
