//! The `Range` header grammar:
//!
//! ```text
//! range      := "bytes=" range-spec (ws* "," ws* range-spec)* ws*
//! range-spec := index? "-" index?
//! index      := digit+
//! ws         := ' ' | '\t'
//! ```
//!
//! The grammar is given by spec functions over the characters that remain to
//! be read; each parsing function is proved to agree with them.

use crate::checkers::{is_digit, is_digit_char, is_whitespace, is_ws_char};
use crate::range::{Range, RangeSpec};
use vstd::prelude::*;
use vstd::std_specs::iter::IteratorSpec;

verus! {

/// What went wrong while parsing a `Range` header.
#[derive(Debug, Clone, Copy, PartialEq, Eq, Structural)]
pub enum ParseErrorKind {
    /// The value does not begin with `bytes=`.
    MalformedUnitPrefix,
    /// A range-spec was expected but the input ended.
    EmptySpecList,
    /// A character other than a digit or `-` where an index or the `-` of a
    /// range-spec was expected, or an index too large for 64 bits.
    InvalidIndex,
    /// A range-spec with neither a first nor a last index.
    MissingBounds,
    /// A range-spec whose first index is above its last.
    InvertedBounds,
    /// A character after a complete range-spec that is neither whitespace, a
    /// comma, nor the end of the input.
    TrailingInput,
}

/// A parse failure: its kind and the character offset at which it arose.
#[derive(Debug, Clone, Copy, PartialEq, Eq, Structural)]
pub struct ParseError {
    pub kind: ParseErrorKind,
    pub position: usize,
}

/// A failure in the spec functions: a kind and an offset into the characters
/// that were being read.
pub type SpecError = (ParseErrorKind, nat);

/// The number of digits at the start of `t`.
pub open spec fn digit_count(t: Seq<char>) -> nat
    decreases t.len(),
{
    if t.len() > 0 && is_digit_char(t[0]) {
        1 + digit_count(t.drop_first())
    } else {
        0
    }
}

/// The number of spaces and tabs at the start of `t`.
pub open spec fn ws_count(t: Seq<char>) -> nat
    decreases t.len(),
{
    if t.len() > 0 && is_ws_char(t[0]) {
        1 + ws_count(t.drop_first())
    } else {
        0
    }
}

/// The value of one decimal digit.
pub open spec fn digit_value(c: char) -> nat {
    (c as int - '0' as int) as nat
}

/// The value of a run of decimal digits, most significant first.
pub open spec fn decimal_value(d: Seq<char>) -> nat
    decreases d.len(),
{
    if d.len() == 0 {
        0
    } else {
        decimal_value(d.drop_last()) * 10 + digit_value(d.last())
    }
}

/// The unit prefix that every `Range` value starts with.
pub open spec fn unit_prefix() -> Seq<char> {
    seq!['b', 'y', 't', 'e', 's', '=']
}

/// An index at the start of `t`: its value and the number of digits read.
pub open spec fn spec_index(t: Seq<char>) -> Result<(u64, nat), SpecError> {
    let n = digit_count(t);
    let v = decimal_value(t.take(n as int));
    if n == 0 || v > u64::MAX {
        Err((ParseErrorKind::InvalidIndex, 0))
    } else {
        Ok((v as u64, n))
    }
}

/// A range-spec at the start of `t`: the spec and the number of characters
/// read.
pub open spec fn spec_range_spec(t: Seq<char>) -> Result<(RangeSpec, nat), SpecError> {
    let lead = digit_count(t) > 0;
    let p = digit_count(t);
    if lead && spec_index(t) is Err {
        Err((ParseErrorKind::InvalidIndex, 0))
    } else if p >= t.len() || t[p as int] != '-' {
        if t.len() == 0 {
            Err((ParseErrorKind::EmptySpecList, 0))
        } else {
            Err((ParseErrorKind::InvalidIndex, p))
        }
    } else {
        let rest = t.skip(p + 1int);
        let trail = digit_count(rest) > 0;
        let end = p + 1 + digit_count(rest);
        if trail && spec_index(rest) is Err {
            Err((ParseErrorKind::InvalidIndex, p + 1))
        } else {
            let from = spec_index(t)->Ok_0.0;
            let to = spec_index(rest)->Ok_0.0;
            if lead && trail {
                if from <= to {
                    Ok((RangeSpec::Full(from, to), end))
                } else {
                    Err((ParseErrorKind::InvertedBounds, 0))
                }
            } else if lead {
                Ok((RangeSpec::From(from), end))
            } else if trail {
                Ok((RangeSpec::Last(to), end))
            } else {
                Err((ParseErrorKind::MissingBounds, 0))
            }
        }
    }
}

/// Moves a failure found `shift` characters further on back to offsets of
/// the enclosing text; keeps a success.
pub open spec fn shift_err<T>(r: Result<T, SpecError>, shift: nat) -> Result<T, SpecError> {
    match r {
        Ok(x) => Ok(x),
        Err((k, o)) => Err((k, o + shift)),
    }
}

/// A list of range-specs separated by commas, with optional whitespace after
/// each spec and after each comma, that fills all of `t`.
pub open spec fn spec_list(t: Seq<char>) -> Result<Seq<RangeSpec>, SpecError>
    decreases t.len(),
{
    match spec_range_spec(t) {
        Err(e) => Err(e),
        Ok((r, n)) => {
            proof {
                lemma_range_spec_len(t);
            }
            match shift_err(spec_more(t.skip(n as int)), n) {
                Ok(rest) => Ok(seq![r] + rest),
                Err(e) => Err(e),
            }
        },
    }
}

/// What may follow a range-spec: whitespace up to the end, or whitespace, a
/// comma, whitespace and a further list.
pub open spec fn spec_more(t: Seq<char>) -> Result<Seq<RangeSpec>, SpecError>
    decreases t.len(),
{
    let w = ws_count(t);
    if w >= t.len() {
        Ok(Seq::empty())
    } else if t[w as int] == ',' {
        let u = t.skip(w + 1int);
        let w2 = ws_count(u);
        proof {
            lemma_ws_count(u);
        }
        shift_err(spec_list(u.skip(w2 as int)), w + 1 + w2)
    } else {
        Err((ParseErrorKind::TrailingInput, w))
    }
}

/// The result of parsing the whole header value `s`.
pub open spec fn spec_parse_range(s: Seq<char>) -> Result<Seq<RangeSpec>, SpecError> {
    if s.len() >= 6 && s.take(6) == unit_prefix() {
        shift_err(spec_list(s.skip(6)), 6)
    } else {
        Err((ParseErrorKind::MalformedUnitPrefix, 0))
    }
}

/// The result of the whole parse, once the specs `done` have been read and
/// the rest of the list starts at offset `pos` with result `rest`.
pub open spec fn resume(
    done: Seq<RangeSpec>,
    pos: nat,
    rest: Result<Seq<RangeSpec>, SpecError>,
) -> Result<Seq<RangeSpec>, SpecError> {
    match rest {
        Ok(x) => Ok(done + x),
        Err((k, o)) => Err((k, o + pos)),
    }
}

/// An executable error agrees with a spec error found at offset `pos`.
pub open spec fn error_at(e: ParseError, pos: nat, se: SpecError) -> bool {
    e.kind == se.0 && e.position == pos + se.1
}

/// The leading digits of `t`: all before `digit_count(t)` are digits, the one
/// at it (if any) is not.
pub proof fn lemma_digit_count(t: Seq<char>)
    ensures
        digit_count(t) <= t.len(),
        forall|k: int| 0 <= k < digit_count(t) ==> is_digit_char(#[trigger] t[k]),
        digit_count(t) < t.len() ==> !is_digit_char(t[digit_count(t) as int]),
    decreases t.len(),
{
    if t.len() > 0 && is_digit_char(t[0]) {
        lemma_digit_count(t.drop_first());
        assert forall|k: int| 0 <= k < digit_count(t) implies is_digit_char(#[trigger] t[k]) by {
            if k > 0 {
                assert(t[k] == t.drop_first()[k - 1]);
            }
        }
    }
}

/// The leading whitespace of `t`: all before `ws_count(t)` are spaces or tabs,
/// the one at it (if any) is not.
pub proof fn lemma_ws_count(t: Seq<char>)
    ensures
        ws_count(t) <= t.len(),
        forall|k: int| 0 <= k < ws_count(t) ==> is_ws_char(#[trigger] t[k]),
        ws_count(t) < t.len() ==> !is_ws_char(t[ws_count(t) as int]),
    decreases t.len(),
{
    if t.len() > 0 && is_ws_char(t[0]) {
        lemma_ws_count(t.drop_first());
        assert forall|k: int| 0 <= k < ws_count(t) implies is_ws_char(#[trigger] t[k]) by {
            if k > 0 {
                assert(t[k] == t.drop_first()[k - 1]);
            }
        }
    }
}

/// A successful range-spec reads at least one character and no more than
/// there are.
pub proof fn lemma_range_spec_len(t: Seq<char>)
    ensures
        spec_range_spec(t) matches Ok((_, n)) ==> 1 <= n <= t.len() && (is_digit_char(t[0])
            || t[0] == '-'),
{
    lemma_digit_count(t);
    let p = digit_count(t);
    if p < t.len() {
        lemma_digit_count(t.skip(p + 1int));
    }
}

/// `m` is the number of leading digits of `t` when all before it are digits
/// and the one at it (if any) is not.
proof fn lemma_digit_count_is(t: Seq<char>, m: int)
    requires
        0 <= m <= t.len(),
        forall|k: int| 0 <= k < m ==> is_digit_char(#[trigger] t[k]),
        m == t.len() || !is_digit_char(t[m]),
    ensures
        digit_count(t) == m,
{
    lemma_digit_count(t);
}

/// `m` is the number of leading spaces and tabs of `t` when all before it are
/// whitespace and the one at it (if any) is not.
proof fn lemma_ws_count_is(t: Seq<char>, m: int)
    requires
        0 <= m <= t.len(),
        forall|k: int| 0 <= k < m ==> is_ws_char(#[trigger] t[k]),
        m == t.len() || !is_ws_char(t[m]),
    ensures
        ws_count(t) == m,
{
    lemma_ws_count(t);
}

/// Text after a run of digits that it does not extend leaves the run as it is.
proof fn lemma_digit_count_append(p: Seq<char>, q: Seq<char>)
    requires
        digit_count(p) < p.len() || q.len() == 0 || !is_digit_char(q[0]),
    ensures
        digit_count(p + q) == digit_count(p),
        (p + q).take(digit_count(p) as int) == p.take(digit_count(p) as int),
{
    lemma_digit_count(p);
    let n = digit_count(p) as int;
    let t = p + q;
    assert forall|k: int| 0 <= k < n implies is_digit_char(#[trigger] t[k]) by {
        assert(t[k] == p[k]);
    }
    if n < p.len() {
        assert(t[n] == p[n]);
    } else if q.len() > 0 {
        assert(t[n] == q[0]);
    }
    lemma_digit_count_is(t, n);
    assert(t.take(n) =~= p.take(n));
}

/// Whitespace after a run that it does not extend leaves the run as it is;
/// after text that is all whitespace it extends it.
proof fn lemma_ws_count_append(p: Seq<char>, q: Seq<char>)
    ensures
        ws_count(p) < p.len() ==> ws_count(p + q) == ws_count(p),
        ws_count(p) >= p.len() ==> ws_count(p + q) == p.len() + ws_count(q),
{
    lemma_ws_count(p);
    lemma_ws_count(q);
    let t = p + q;
    let n = ws_count(p) as int;
    if n < p.len() {
        assert forall|k: int| 0 <= k < n implies is_ws_char(#[trigger] t[k]) by {
            assert(t[k] == p[k]);
        }
        assert(t[n] == p[n]);
        lemma_ws_count_is(t, n);
    } else {
        let m = p.len() + ws_count(q) as int;
        assert forall|k: int| 0 <= k < m implies is_ws_char(#[trigger] t[k]) by {
            if k < p.len() {
                assert(t[k] == p[k]);
            } else {
                assert(t[k] == q[k - p.len()]);
            }
        }
        if m < t.len() {
            assert(t[m] == q[ws_count(q) as int]);
        }
        lemma_ws_count_is(t, m);
    }
}

/// Text that may follow a range-spec starts with whitespace or a comma.
proof fn lemma_more_start(c: Seq<char>)
    ensures
        spec_more(c) is Ok && c.len() > 0 ==> is_ws_char(c[0]) || c[0] == ',',
{
    if c.len() > 0 && !is_ws_char(c[0]) {
        lemma_ws_count_is(c, 0);
    }
}

/// A range-spec reads the same when text that may follow a range-spec is
/// appended.
proof fn lemma_range_spec_append(a: Seq<char>, c: Seq<char>)
    requires
        spec_range_spec(a) is Ok || is_spec_text(a),
        c.len() == 0 || is_ws_char(c[0]) || c[0] == ',',
    ensures
        spec_range_spec(a + c) == spec_range_spec(a),
        is_spec_text(a) ==> (spec_range_spec(a) matches Ok((_, n)) ==> n == a.len()),
{
    lemma_digit_count(a);
    let p = digit_count(a) as int;
    lemma_digit_count_append(a, c);
    let t = a + c;
    assert(t[p] == a[p]);
    let rest = a.skip(p + 1);
    assert(t.skip(p + 1) =~= rest + c);
    lemma_digit_count_append(rest, c);
}

/// Appending text that may follow a list to a list that parses yields the
/// specs of both, in order.
proof fn lemma_list_append(a: Seq<char>, c: Seq<char>)
    requires
        spec_list(a) is Ok,
        spec_more(c) is Ok,
    ensures
        spec_list(a + c) == Ok::<Seq<RangeSpec>, SpecError>(
            spec_list(a)->Ok_0 + spec_more(c)->Ok_0,
        ),
    decreases a.len(),
{
    lemma_range_spec_len(a);
    lemma_more_start(c);
    lemma_range_spec_append(a, c);
    let (r, n) = spec_range_spec(a)->Ok_0;
    let u = a.skip(n as int);
    assert((a + c).skip(n as int) =~= u + c);
    lemma_more_append(u, c);
    let y1 = spec_more(u)->Ok_0;
    let y2 = spec_more(c)->Ok_0;
    assert(seq![r] + (y1 + y2) =~= (seq![r] + y1) + y2);
}

/// Appending text that may follow a list to text that may follow a
/// range-spec yields the specs of both, in order.
proof fn lemma_more_append(u: Seq<char>, c: Seq<char>)
    requires
        spec_more(u) is Ok,
        spec_more(c) is Ok,
    ensures
        spec_more(u + c) == Ok::<Seq<RangeSpec>, SpecError>(
            spec_more(u)->Ok_0 + spec_more(c)->Ok_0,
        ),
    decreases u.len(),
{
    lemma_ws_count(u);
    lemma_ws_count_append(u, c);
    let w = ws_count(u) as int;
    let t = u + c;
    if w >= u.len() {
        let wc = ws_count(c) as int;
        lemma_ws_count(c);
        if wc < c.len() {
            assert(t[w + wc] == c[wc]);
            assert(t.skip(w + wc + 1) =~= c.skip(wc + 1));
        }
        assert(Seq::<RangeSpec>::empty() + spec_more(c)->Ok_0 =~= spec_more(c)->Ok_0);
    } else {
        assert(t[w] == u[w]);
        let v = u.skip(w + 1);
        let w2 = ws_count(v) as int;
        let l = v.skip(w2);
        lemma_ws_count(v);
        lemma_range_spec_len(l);
        assert(t.skip(w + 1) =~= v + c);
        if w2 < v.len() {
            assert(l[0] == v[w2]);
        }
        lemma_ws_count_append(v, c);
        assert((v + c).skip(w2) =~= l + c);
        lemma_list_append(l, c);
    }
}

/// Text made of spaces and tabs only.
pub open spec fn all_ws(w: Seq<char>) -> bool {
    forall|k: int| 0 <= k < w.len() ==> is_ws_char(#[trigger] w[k])
}

/// The list that `bytes=` followed by `a` holds, when it parses.
proof fn lemma_parse_prefixed(a: Seq<char>)
    ensures
        spec_parse_range(unit_prefix() + a) == shift_err(spec_list(a), 6),
{
    let s = unit_prefix() + a;
    assert(s.take(6) =~= unit_prefix());
    assert(s.skip(6) =~= a);
}

/// Joining two range lists with a comma, with any spaces or tabs before and
/// after it, yields the ranges of the first list followed by those of the
/// second: the parse keeps the order in which ranges are written.
pub proof fn lemma_join_keeps_order(a: Seq<char>, w1: Seq<char>, w2: Seq<char>, b: Seq<char>)
    requires
        spec_parse_range(unit_prefix() + a) is Ok,
        spec_parse_range(unit_prefix() + b) is Ok,
        all_ws(w1),
        all_ws(w2),
    ensures
        spec_parse_range(unit_prefix() + a + w1 + seq![','] + w2 + b) == Ok::<
            Seq<RangeSpec>,
            SpecError,
        >(spec_parse_range(unit_prefix() + a)->Ok_0 + spec_parse_range(unit_prefix() + b)->Ok_0),
{
    lemma_parse_prefixed(a);
    lemma_parse_prefixed(b);
    let c = w1 + seq![','] + w2 + b;
    lemma_parse_prefixed(a + c);
    assert(unit_prefix() + a + w1 + seq![','] + w2 + b =~= unit_prefix() + (a + c));
    lemma_ws_count_is(c, w1.len() as int);
    let v = c.skip(w1.len() + 1int);
    assert(v =~= w2 + b);
    lemma_range_spec_len(b);
    lemma_ws_count_is(v, w2.len() as int);
    assert(v.skip(w2.len() as int) =~= b);
    lemma_list_append(a, c);
}

/// Spaces and tabs inserted before or after a comma leave the parsed ranges
/// unchanged.
pub proof fn lemma_ws_around_comma(a: Seq<char>, w1: Seq<char>, w2: Seq<char>, b: Seq<char>)
    requires
        spec_parse_range(unit_prefix() + a) is Ok,
        spec_parse_range(unit_prefix() + b) is Ok,
        all_ws(w1),
        all_ws(w2),
    ensures
        spec_parse_range(unit_prefix() + a + w1 + seq![','] + w2 + b) == spec_parse_range(
            unit_prefix() + a + seq![','] + b,
        ),
{
    lemma_join_keeps_order(a, w1, w2, b);
    let e = Seq::<char>::empty();
    lemma_join_keeps_order(a, e, e, b);
    assert(unit_prefix() + a + e + seq![','] + e + b =~= unit_prefix() + a + seq![','] + b);
}

/// Spaces and tabs after the last range leave the parsed ranges unchanged.
pub proof fn lemma_trailing_ws(a: Seq<char>, w: Seq<char>)
    requires
        spec_parse_range(unit_prefix() + a) is Ok,
        all_ws(w),
    ensures
        spec_parse_range(unit_prefix() + a + w) == spec_parse_range(unit_prefix() + a),
{
    lemma_parse_prefixed(a);
    lemma_parse_prefixed(a + w);
    assert(unit_prefix() + a + w =~= unit_prefix() + (a + w));
    lemma_ws_count_is(w, w.len() as int);
    lemma_list_append(a, w);
    assert(spec_list(a)->Ok_0 + Seq::<RangeSpec>::empty() =~= spec_list(a)->Ok_0);
}

/// Every header value that parses yields at least one range, and no `Full`
/// range in it starts after it ends: a value that would give one fails.
pub proof fn lemma_parsed_ranges_ordered(s: Seq<char>)
    ensures
        spec_parse_range(s) matches Ok(x) ==> x.len() > 0 && forall|k: int|
            0 <= k < x.len() ==> (#[trigger] x[k]).is_ordered(),
{
    if s.len() >= 6 && s.take(6) == unit_prefix() {
        lemma_list_well_formed(s.skip(6));
    }
}

/// Text made of an optional index, `-` and an optional index, and nothing
/// else.
pub open spec fn is_spec_text(t: Seq<char>) -> bool {
    let p = digit_count(t);
    &&& p < t.len()
    &&& t[p as int] == '-'
    &&& digit_count(t.skip(p + 1int)) == t.len() - p - 1
}

/// Range-spec text with both indexes, the first above the second.
pub open spec fn is_inverted_text(t: Seq<char>) -> bool {
    let p = digit_count(t);
    let rest = t.skip(p + 1int);
    &&& is_spec_text(t)
    &&& p > 0
    &&& digit_count(rest) > 0
    &&& decimal_value(t.take(p as int)) > decimal_value(rest.take(digit_count(rest) as int))
}

/// The list text `ts[0] wa[0] , wc[0] ts[1] wa[1] , ... ts[n-1] wa[n-1]`:
/// the range-spec texts `ts`, each followed by `wa[i]`, and each comma by
/// `wc[i]`.
pub open spec fn list_text(
    ts: Seq<Seq<char>>,
    wa: Seq<Seq<char>>,
    wc: Seq<Seq<char>>,
) -> Seq<char>
    decreases ts.len(),
{
    if ts.len() == 0 {
        Seq::empty()
    } else if ts.len() == 1 {
        ts[0] + wa[0]
    } else {
        ts[0] + wa[0] + seq![','] + wc[0] + list_text(
            ts.drop_first(),
            wa.drop_first(),
            wc.drop_first(),
        )
    }
}

/// `n` empty texts.
pub open spec fn no_padding(n: nat) -> Seq<Seq<char>> {
    Seq::new(n, |i: int| Seq::<char>::empty())
}

/// Range-spec texts with whitespace paddings to place after each of them and
/// after each comma.
pub open spec fn padded_specs(ts: Seq<Seq<char>>, wa: Seq<Seq<char>>, wc: Seq<Seq<char>>) -> bool {
    &&& ts.len() >= 1
    &&& wa.len() == ts.len()
    &&& wc.len() == ts.len()
    &&& forall|i: int| 0 <= i < ts.len() ==> is_spec_text(#[trigger] ts[i])
    &&& forall|i: int| 0 <= i < ts.len() ==> all_ws(#[trigger] wa[i])
    &&& forall|i: int| 0 <= i < ts.len() ==> all_ws(#[trigger] wc[i])
}

/// Two parse results agree: the same specs, or failures of the same kind.
pub open spec fn same_outcome(
    r1: Result<Seq<RangeSpec>, SpecError>,
    r2: Result<Seq<RangeSpec>, SpecError>,
) -> bool {
    match (r1, r2) {
        (Ok(x1), Ok(x2)) => x1 == x2,
        (Err(e1), Err(e2)) => e1.0 == e2.0,
        _ => false,
    }
}

/// A list text reads its first range-spec, then the rest of the list.
proof fn lemma_list_text_step(ts: Seq<Seq<char>>, wa: Seq<Seq<char>>, wc: Seq<Seq<char>>)
    requires
        padded_specs(ts, wa, wc),
    ensures
        spec_range_spec(ts[0]) matches Err(e) ==> spec_list(list_text(ts, wa, wc)) matches Err(
            e2,
        ) && e2.0 == e.0,
        spec_range_spec(ts[0]) matches Ok((r, _)) ==> ts.len() == 1 ==> spec_list(
            list_text(ts, wa, wc),
        ) == Ok::<Seq<RangeSpec>, SpecError>(seq![r]),
        spec_range_spec(ts[0]) matches Ok((r, _)) ==> ts.len() > 1 ==> same_outcome(
            spec_list(list_text(ts, wa, wc)),
            match spec_list(list_text(ts.drop_first(), wa.drop_first(), wc.drop_first())) {
                Ok(x) => Ok(seq![r] + x),
                Err(e) => Err(e),
            },
        ),
{
    let t0 = ts[0];
    let w0 = wa[0];
    let text = list_text(ts, wa, wc);
    let c = if ts.len() == 1 {
        w0
    } else {
        w0 + seq![','] + wc[0] + list_text(ts.drop_first(), wa.drop_first(), wc.drop_first())
    };
    assert(text =~= t0 + c);
    lemma_ws_count_is(w0, w0.len() as int);
    if c.len() > 0 {
        if w0.len() > 0 {
            assert(c[0] == w0[0]);
        } else {
            assert(c[0] == ',');
        }
    }
    lemma_range_spec_append(t0, c);
    if let Ok((r, n)) = spec_range_spec(t0) {
        assert(text.skip(n as int) =~= c);
        if ts.len() == 1 {
            lemma_ws_count_is(c, c.len() as int);
            assert(seq![r] + Seq::<RangeSpec>::empty() =~= seq![r]);
        } else {
            let tail = list_text(ts.drop_first(), wa.drop_first(), wc.drop_first());
            let t1 = ts[1];
            assert(ts.drop_first()[0] == t1);
            assert(is_spec_text(t1));
            lemma_digit_count(t1);
            if ts.len() == 2 {
                assert(tail =~= t1 + wa[1]);
            } else {
                assert(tail =~= t1 + (wa[1] + seq![','] + wc[1] + list_text(
                    ts.drop_first().drop_first(),
                    wa.drop_first().drop_first(),
                    wc.drop_first().drop_first(),
                )));
            }
            assert(tail[0] == t1[0]);
            assert forall|k: int| 0 <= k < w0.len() implies is_ws_char(#[trigger] c[k]) by {
                assert(c[k] == w0[k]);
            }
            assert(c[w0.len() as int] == ',');
            lemma_ws_count_is(c, w0.len() as int);
            let u = c.skip(w0.len() + 1int);
            let v0 = wc[0];
            assert(u =~= v0 + tail);
            assert forall|k: int| 0 <= k < v0.len() implies is_ws_char(#[trigger] u[k]) by {
                assert(u[k] == v0[k]);
            }
            assert(u[v0.len() as int] == tail[0]);
            lemma_ws_count_is(u, v0.len() as int);
            assert(u.skip(v0.len() as int) =~= tail);
        }
    }
}

/// Whitespace after a range-spec or after a comma changes nothing in a list:
/// the padded text gives the same specs as the bare one, or fails as it does.
proof fn lemma_list_padding(ts: Seq<Seq<char>>, wa: Seq<Seq<char>>, wc: Seq<Seq<char>>)
    requires
        padded_specs(ts, wa, wc),
    ensures
        same_outcome(
            spec_list(list_text(ts, wa, wc)),
            spec_list(list_text(ts, no_padding(ts.len()), no_padding(ts.len()))),
        ),
    decreases ts.len(),
{
    let e = no_padding(ts.len());
    assert forall|i: int| 0 <= i < ts.len() implies all_ws(#[trigger] e[i]) by {}
    lemma_list_text_step(ts, wa, wc);
    lemma_list_text_step(ts, e, e);
    if ts.len() > 1 {
        let tt = ts.drop_first();
        assert(e.drop_first() =~= no_padding(tt.len()));
        assert forall|i: int| 0 <= i < tt.len() implies is_spec_text(#[trigger] tt[i]) && all_ws(
            wa.drop_first()[i],
        ) && all_ws(wc.drop_first()[i]) by {
            assert(tt[i] == ts[i + 1]);
            assert(all_ws(wa[i + 1]));
            assert(all_ws(wc[i + 1]));
        }
        lemma_list_padding(tt, wa.drop_first(), wc.drop_first());
    }
}

/// Spaces and tabs placed after any range-spec and after any comma of a
/// `Range` value leave its outcome as it was: the same ranges in the same
/// order when it parses, a failure of the same kind when it does not.
pub proof fn lemma_padding_keeps_outcome(
    ts: Seq<Seq<char>>,
    wa: Seq<Seq<char>>,
    wc: Seq<Seq<char>>,
)
    requires
        padded_specs(ts, wa, wc),
    ensures
        same_outcome(
            spec_parse_range(unit_prefix() + list_text(ts, wa, wc)),
            spec_parse_range(
                unit_prefix() + list_text(ts, no_padding(ts.len()), no_padding(ts.len())),
            ),
        ),
{
    lemma_list_padding(ts, wa, wc);
    lemma_parse_prefixed(list_text(ts, wa, wc));
    lemma_parse_prefixed(list_text(ts, no_padding(ts.len()), no_padding(ts.len())));
}

/// A list in which the range-spec at `i` is inverted fails.
proof fn lemma_list_inverted(
    ts: Seq<Seq<char>>,
    wa: Seq<Seq<char>>,
    wc: Seq<Seq<char>>,
    i: int,
)
    requires
        padded_specs(ts, wa, wc),
        0 <= i < ts.len(),
        is_inverted_text(ts[i]),
    ensures
        spec_list(list_text(ts, wa, wc)) is Err,
    decreases i,
{
    lemma_list_text_step(ts, wa, wc);
    if i > 0 {
        let tt = ts.drop_first();
        assert forall|j: int| 0 <= j < tt.len() implies is_spec_text(#[trigger] tt[j]) && all_ws(
            wa.drop_first()[j],
        ) && all_ws(wc.drop_first()[j]) by {
            assert(tt[j] == ts[j + 1]);
            assert(all_ws(wa[j + 1]));
            assert(all_ws(wc[j + 1]));
        }
        assert(tt[i - 1] == ts[i]);
        lemma_list_inverted(tt, wa.drop_first(), wc.drop_first(), i - 1);
    }
}

/// A `Range` value in which any range-spec has a first index above its last
/// fails to parse.
pub proof fn lemma_inverted_spec_fails(
    ts: Seq<Seq<char>>,
    wa: Seq<Seq<char>>,
    wc: Seq<Seq<char>>,
    i: int,
)
    requires
        padded_specs(ts, wa, wc),
        0 <= i < ts.len(),
        is_inverted_text(ts[i]),
    ensures
        spec_parse_range(unit_prefix() + list_text(ts, wa, wc)) is Err,
{
    lemma_list_inverted(ts, wa, wc, i);
    lemma_parse_prefixed(list_text(ts, wa, wc));
}

/// The value of a prefix of a run of digits is at most that of the run.
pub proof fn lemma_decimal_prefix(d: Seq<char>, k: int)
    requires
        0 <= k <= d.len(),
    ensures
        decimal_value(d.take(k)) <= decimal_value(d),
    decreases d.len(),
{
    if k == d.len() {
        assert(d.take(k) =~= d);
    } else {
        lemma_decimal_prefix(d.drop_last(), k);
        assert(d.drop_last().take(k) =~= d.take(k));
    }
}

/// Every list that parses holds at least one spec, and no `Full` spec in it
/// ends before it starts.
pub proof fn lemma_list_well_formed(t: Seq<char>)
    ensures
        spec_list(t) matches Ok(x) ==> x.len() > 0 && forall|k: int|
            0 <= k < x.len() ==> (#[trigger] x[k]).is_ordered(),
    decreases t.len(),
{
    lemma_range_spec_len(t);
    if let Ok((r, n)) = spec_range_spec(t) {
        lemma_more_well_formed(t.skip(n as int));
        if let Ok(rest) = spec_more(t.skip(n as int)) {
            let x = seq![r] + rest;
            assert forall|k: int| 0 <= k < x.len() implies (#[trigger] x[k]).is_ordered() by {
                if k > 0 {
                    assert(x[k] == rest[k - 1]);
                }
            }
        }
    }
}

/// Every spec in what may follow a range-spec is ordered.
pub proof fn lemma_more_well_formed(t: Seq<char>)
    ensures
        spec_more(t) matches Ok(x) ==> forall|k: int|
            0 <= k < x.len() ==> (#[trigger] x[k]).is_ordered(),
    decreases t.len(),
{
    let w = ws_count(t);
    if w < t.len() && t[w as int] == ',' {
        let u = t.skip(w + 1int);
        lemma_ws_count(u);
        lemma_list_well_formed(u.skip(ws_count(u) as int));
    }
}

/// The characters of `s`, in order.
fn chars_of(s: &str) -> (r: Vec<char>)
    ensures
        r@ == s@,
{
    broadcast use vstd::string::axiom_spec_iter, vstd::string::next_postcondition;

    let mut it = s.chars();
    let mut v: Vec<char> = Vec::new();
    loop
        invariant
            v@ + it.remaining() == s@,
            it.decrease() is Some,
        ensures
            v@ == s@,
        decreases it.decrease()->0,
    {
        let ghost before = it.remaining();
        match it.next() {
            Some(c) => {
                proof {
                    assert(v@.push(c) + it.remaining() =~= v@ + before);
                }
                v.push(c);
            },
            None => {
                proof {
                    assert(v@ + it.remaining() =~= v@);
                }
                break;
            },
        }
    }
    v
}

/// The position after the spaces and tabs that start at `pos`.
fn skip_ws(input: &[char], pos: usize) -> (r: usize)
    requires
        pos <= input@.len(),
    ensures
        r == pos + ws_count(input@.skip(pos as int)),
        r <= input@.len(),
{
    let mut i: usize = pos;
    while i < input.len() && is_whitespace(input[i])
        invariant
            pos <= i <= input@.len(),
            forall|k: int| pos <= k < i ==> is_ws_char(#[trigger] input@[k]),
        decreases input@.len() - i,
    {
        i = i + 1;
    }
    proof {
        let t = input@.skip(pos as int);
        lemma_ws_count(t);
        let w = ws_count(t);
        if w < i - pos {
            assert(t[w as int] == input@[pos + w]);
        } else if w > i - pos {
            assert(t[i - pos] == input@[i as int]);
        }
    }
    i
}

/// Reads an index (one or more digits) at `pos`: its value and the position
/// after it.
pub fn index(input: &[char], pos: usize) -> (r: Result<(u64, usize), ParseError>)
    requires
        pos <= input@.len(),
    ensures
        spec_index(input@.skip(pos as int)) matches Ok((v, n)) ==> r matches Ok((value, end))
            && value == v && end == pos + n,
        spec_index(input@.skip(pos as int)) matches Err(se) ==> r matches Err(e) && error_at(
            e,
            pos as nat,
            se,
        ),
{
    let ghost t = input@.skip(pos as int);
    proof {
        lemma_digit_count(t);
    }
    let mut i: usize = pos;
    let mut v: u64 = 0;
    while i < input.len() && is_digit(input[i])
        invariant
            pos <= i <= input@.len(),
            t == input@.skip(pos as int),
            forall|k: int| pos <= k < i ==> is_digit_char(#[trigger] input@[k]),
            v as nat == decimal_value(t.take(i - pos)),
            digit_count(t) <= t.len(),
            forall|k: int| 0 <= k < digit_count(t) ==> is_digit_char(#[trigger] t[k]),
            digit_count(t) < t.len() ==> !is_digit_char(t[digit_count(t) as int]),
        decreases input@.len() - i,
    {
        let c = input[i];
        let d: u64 = (c as u32 - '0' as u32) as u64;
        proof {
            assert(t.take(i + 1 - pos).drop_last() =~= t.take(i - pos));
            assert(t.take(i + 1 - pos).last() == c);
            if digit_count(t) < i + 1 - pos {
                assert(t[digit_count(t) as int] == input@[pos + digit_count(t)]);
            }
            lemma_decimal_prefix(t.take(digit_count(t) as int), i + 1 - pos);
            assert(t.take(digit_count(t) as int).take(i + 1 - pos) =~= t.take(i + 1 - pos));
        }
        let m = v.checked_mul(10);
        if m.is_none() {
            return Err(ParseError { kind: ParseErrorKind::InvalidIndex, position: pos });
        }
        let a = m.unwrap().checked_add(d);
        if a.is_none() {
            return Err(ParseError { kind: ParseErrorKind::InvalidIndex, position: pos });
        }
        v = a.unwrap();
        i = i + 1;
    }
    proof {
        let n = digit_count(t);
        if n < i - pos {
            assert(t[n as int] == input@[pos + n]);
        } else if n > i - pos {
            assert(t[i - pos] == input@[i as int]);
        }
    }
    if i == pos {
        return Err(ParseError { kind: ParseErrorKind::InvalidIndex, position: pos });
    }
    Ok((v, i))
}

/// Reads one range-spec at `pos`: the spec and the position after it.
pub fn range_spec(input: &[char], pos: usize) -> (r: Result<(RangeSpec, usize), ParseError>)
    requires
        pos <= input@.len(),
    ensures
        spec_range_spec(input@.skip(pos as int)) matches Ok((v, n)) ==> r matches Ok((spec, end))
            && spec == v && end == pos + n,
        spec_range_spec(input@.skip(pos as int)) matches Err(se) ==> r matches Err(e)
            && error_at(e, pos as nat, se),
{
    let ghost t = input@.skip(pos as int);
    proof {
        lemma_digit_count(t);
    }
    let mut from: Option<u64> = None;
    let mut p: usize = pos;
    if pos < input.len() && is_digit(input[pos]) {
        match index(input, pos) {
            Ok((v, end)) => {
                from = Some(v);
                p = end;
            },
            Err(e) => {
                return Err(e);
            },
        }
    }
    assert(p == pos + digit_count(t));
    if p >= input.len() || input[p] != '-' {
        if pos == input.len() {
            return Err(ParseError { kind: ParseErrorKind::EmptySpecList, position: pos });
        }
        return Err(ParseError { kind: ParseErrorKind::InvalidIndex, position: p });
    }
    let q = p + 1;
    let ghost rest = t.skip(digit_count(t) + 1int);
    proof {
        assert(rest =~= input@.skip(q as int));
        lemma_digit_count(rest);
    }
    let mut to: Option<u64> = None;
    let mut end: usize = q;
    if q < input.len() && is_digit(input[q]) {
        match index(input, q) {
            Ok((v, e)) => {
                to = Some(v);
                end = e;
            },
            Err(e) => {
                return Err(e);
            },
        }
    }
    match (from, to) {
        (Some(a), Some(b)) => {
            if a <= b {
                Ok((RangeSpec::Full(a, b), end))
            } else {
                Err(ParseError { kind: ParseErrorKind::InvertedBounds, position: pos })
            }
        },
        (Some(a), None) => Ok((RangeSpec::From(a), end)),
        (None, Some(b)) => Ok((RangeSpec::Last(b), end)),
        (None, None) => Err(ParseError { kind: ParseErrorKind::MissingBounds, position: pos }),
    }
}

/// Parses a whole `Range` header value, given as its characters.
pub fn range(input: &[char]) -> (r: Result<Range, ParseError>)
    ensures
        spec_parse_range(input@) matches Ok(x) ==> r matches Ok(range) && range.specs() == x,
        spec_parse_range(input@) matches Err(se) ==> r matches Err(e) && error_at(e, 0, se),
{
    let ghost s = input@;
    if input.len() < 6 || input[0] != 'b' || input[1] != 'y' || input[2] != 't' || input[3]
        != 'e' || input[4] != 's' || input[5] != '=' {
        proof {
            if s.len() >= 6 && s.take(6) == unit_prefix() {
                assert(forall|k: int| 0 <= k < 6 ==> s[k] == #[trigger] s.take(6)[k]);
            }
        }
        return Err(ParseError { kind: ParseErrorKind::MalformedUnitPrefix, position: 0 });
    }
    proof {
        assert(s.take(6) =~= unit_prefix());
        match spec_list(s.skip(6)) {
            Ok(x) => {
                assert(Seq::<RangeSpec>::empty() + x =~= x);
            },
            Err(_) => {},
        }
    }
    let mut acc: Vec<RangeSpec> = Vec::new();
    let mut pos: usize = 6;
    loop
        invariant
            6 <= pos <= s.len(),
            s == input@,
            spec_parse_range(s) == resume(acc@, pos as nat, spec_list(s.skip(pos as int))),
        decreases s.len() - pos,
    {
        let ghost t = s.skip(pos as int);
        let ghost before = acc@;
        proof {
            lemma_range_spec_len(t);
        }
        let (spec, spec_end) = match range_spec(input, pos) {
            Ok(x) => x,
            Err(e) => {
                return Err(e);
            },
        };
        acc.push(spec);
        let ws_end = skip_ws(input, spec_end);
        let ghost n = (spec_end - pos) as nat;
        let ghost u = t.skip(n as int);
        proof {
            assert(u =~= s.skip(spec_end as int));
        }
        if ws_end == input.len() {
            proof {
                assert(before + seq![spec] + Seq::<RangeSpec>::empty() =~= acc@);
                assert(before + (seq![spec] + Seq::<RangeSpec>::empty()) =~= acc@);
            }
            return Ok(Range::new(acc));
        }
        if input[ws_end] != ',' {
            return Err(ParseError { kind: ParseErrorKind::TrailingInput, position: ws_end });
        }
        let next = skip_ws(input, ws_end + 1);
        proof {
            let w = ws_count(u);
            let v = u.skip(w + 1int);
            assert(v =~= s.skip(ws_end + 1int));
            assert(v.skip(ws_count(v) as int) =~= s.skip(next as int));
            match spec_list(s.skip(next as int)) {
                Ok(x) => {
                    assert(before + (seq![spec] + x) =~= acc@ + x);
                },
                Err(_) => {},
            }
        }
        pos = next;
    }
}

impl Range {
    /// The name of the header whose value `parse` reads.
    pub const HEADER_NAME: &'static str = "Range";

    /// Parses the value of a `Range` header, as `parse_range` does.
    pub fn parse(value: &str) -> (r: Result<Range, ParseError>)
        ensures
            spec_parse_range(value@) matches Ok(x) ==> r matches Ok(range) && range.specs() == x
                && range.well_formed(),
            spec_parse_range(value@) matches Err(se) ==> r matches Err(e) && error_at(e, 0, se),
    {
        parse_range(value)
    }
}

/// Parses the value of a `Range` header. On success every requested range is
/// returned in the order written; the first failure is returned otherwise.
pub fn parse_range(input: &str) -> (r: Result<Range, ParseError>)
    ensures
        spec_parse_range(input@) matches Ok(x) ==> r matches Ok(range) && range.specs() == x
            && range.well_formed(),
        spec_parse_range(input@) matches Err(se) ==> r matches Err(e) && error_at(e, 0, se),
{
    let chars = chars_of(input);
    proof {
        lemma_parsed_ranges_ordered(input@);
    }
    range(chars.as_slice())
}

} // verus!
