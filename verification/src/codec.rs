//! The on-disk record format. A group is stored as one file: each record
//! occupies one line, `<target><separator><priority>\n`, where the separator
//! is a single space and the priority is a signed decimal. The target may
//! itself contain spaces: the priority field starts after the last space of
//! the line. The order of lines is not significant; the winner is recomputed
//! from the full set after loading.

use vstd::prelude::*;
use vstd::slice::{slice_subrange, slice_to_vec};
use crate::record::{Record, RecordView, NEWLINE, no_newline};
use crate::group::views_of;

verus! {

/// The byte that separates the target from the priority on each line.
pub const SEPARATOR: u8 = 32;

/// ASCII decimal digit.
pub open spec fn is_digit(c: u8) -> bool {
    48 <= c <= 57
}

/// Every byte of `s` is a decimal digit.
pub open spec fn all_digits(s: Seq<u8>) -> bool {
    forall|i: int| 0 <= i < s.len() ==> is_digit(#[trigger] s[i])
}

/// Numeric value of a digit string, most significant digit first.
pub open spec fn dec_val(s: Seq<u8>) -> int
    decreases s.len(),
{
    if s.len() == 0 {
        0
    } else {
        dec_val(s.drop_last()) * 10 + (s.last() - 48)
    }
}

/// The signed value a priority field denotes: an optional leading minus sign
/// followed by at least one digit, within the range of a 32-bit integer.
/// `None` when the field is not such a numeral.
pub open spec fn dec_of(s: Seq<u8>) -> Option<int> {
    if s.len() > 0 && s[0] == 45 {
        let ds = s.skip(1);
        if ds.len() > 0 && all_digits(ds) && -dec_val(ds) >= i32::MIN as int {
            Some(-dec_val(ds))
        } else {
            None
        }
    } else if s.len() > 0 && all_digits(s) && dec_val(s) <= i32::MAX as int {
        Some(dec_val(s))
    } else {
        None
    }
}

/// Canonical digit string of a natural number.
pub open spec fn u_dec(n: nat) -> Seq<u8>
    decreases n,
{
    if n < 10 {
        seq![(48 + n) as u8]
    } else {
        u_dec(n / 10) + seq![(48 + n % 10) as u8]
    }
}

/// Canonical decimal encoding of a signed number.
pub open spec fn i_dec(p: int) -> Seq<u8> {
    if p < 0 {
        seq![45u8] + u_dec((-p) as nat)
    } else {
        u_dec(p as nat)
    }
}

/// Index of the first occurrence of `x` at or after position `i`.
pub open spec fn find_from(s: Seq<u8>, x: u8, i: int) -> Option<int>
    decreases s.len() - i,
{
    if i >= s.len() {
        None
    } else if s[i] == x {
        Some(i)
    } else {
        find_from(s, x, i + 1)
    }
}

/// Index of the last occurrence of `x` in `s`.
pub open spec fn find_last_in(s: Seq<u8>, x: u8) -> Option<int>
    decreases s.len(),
{
    if s.len() == 0 {
        None
    } else if s.last() == x {
        Some(s.len() - 1)
    } else {
        find_last_in(s.drop_last(), x)
    }
}

/// The record one line (without its terminator) denotes: the bytes before
/// the last separator are the target, those after it the priority.
pub open spec fn parse_line(line: Seq<u8>) -> Option<RecordView> {
    match find_last_in(line, SEPARATOR) {
        Some(k) => match dec_of(line.skip(k + 1)) {
            Some(p) => Some(RecordView { target: line.take(k), priority: p }),
            None => None,
        },
        None => None,
    }
}

/// The record sequence a whole file denotes: a sequence of terminated lines,
/// each denoting one record. The empty file denotes the empty sequence.
pub open spec fn parse_content(c: Seq<u8>) -> Option<Seq<RecordView>>
    decreases c.len(),
    via parse_content_decreases
{
    if c.len() == 0 {
        Some(Seq::empty())
    } else {
        match find_from(c, NEWLINE, 0) {
            None => None,
            Some(k) => match (parse_line(c.take(k)), parse_content(c.skip(k + 1))) {
                (Some(r), Some(rs)) => Some(seq![r] + rs),
                _ => None,
            },
        }
    }
}

#[via_fn]
proof fn parse_content_decreases(c: Seq<u8>) {
    if c.len() != 0 {
        lemma_find_from_spec(c, NEWLINE, 0);
    }
}

/// One encoded record line, terminator included.
pub open spec fn record_line(r: RecordView) -> Seq<u8> {
    r.target + seq![SEPARATOR] + i_dec(r.priority) + seq![NEWLINE]
}

/// The encoded form of a record sequence: its records' lines, in order.
pub open spec fn encode_records(rs: Seq<RecordView>) -> Seq<u8>
    decreases rs.len(),
{
    if rs.len() == 0 {
        Seq::empty()
    } else {
        record_line(rs[0]) + encode_records(rs.skip(1))
    }
}

/// A record that the line format can carry: its target fits on a line and
/// its priority fits in 32 bits.
pub open spec fn encodable(r: RecordView) -> bool {
    &&& no_newline(r.target)
    &&& i32::MIN as int <= r.priority <= i32::MAX as int
}

/// What `find_from` returns: the first index at or after `i` holding `x`,
/// or `None` when there is none.
pub proof fn lemma_find_from_spec(s: Seq<u8>, x: u8, i: int)
    requires
        0 <= i,
    ensures
        match find_from(s, x, i) {
            Some(j) => i <= j < s.len() && s[j] == x && (forall|k: int| i <= k < j ==> s[k] != x),
            None => forall|k: int| i <= k < s.len() ==> s[k] != x,
        },
    decreases s.len() - i,
{
    if i < s.len() && s[i] != x {
        lemma_find_from_spec(s, x, i + 1);
    }
}

/// `find_from` finds the witnessed first occurrence.
pub proof fn lemma_find_from_at(s: Seq<u8>, x: u8, i: int, j: int)
    requires
        0 <= i <= j < s.len(),
        s[j] == x,
        forall|k: int| i <= k < j ==> s[k] != x,
    ensures
        find_from(s, x, i) == Some(j),
    decreases j - i,
{
    if i < j {
        lemma_find_from_at(s, x, i + 1, j);
    }
}

/// What `find_last_in` returns: the last index holding `x`, or `None`.
pub proof fn lemma_find_last_spec(s: Seq<u8>, x: u8)
    ensures
        match find_last_in(s, x) {
            Some(j) => 0 <= j < s.len() && s[j] == x && (forall|k: int| j < k < s.len() ==> s[k] != x),
            None => forall|k: int| 0 <= k < s.len() ==> s[k] != x,
        },
    decreases s.len(),
{
    if s.len() > 0 && s.last() != x {
        lemma_find_last_spec(s.drop_last(), x);
        match find_last_in(s.drop_last(), x) {
            Some(j) => {
                assert(s[j] == s.drop_last()[j]);
                assert forall|k: int| j < k < s.len() implies s[k] != x by {
                    if k < s.len() - 1 {
                        assert(s[k] == s.drop_last()[k]);
                    }
                }
            },
            None => {
                assert forall|k: int| 0 <= k < s.len() implies s[k] != x by {
                    if k < s.len() - 1 {
                        assert(s[k] == s.drop_last()[k]);
                    }
                }
            },
        }
    }
}

/// `find_last_in` finds the witnessed last occurrence.
pub proof fn lemma_find_last_at(s: Seq<u8>, x: u8, j: int)
    requires
        0 <= j < s.len(),
        s[j] == x,
        forall|k: int| j < k < s.len() ==> s[k] != x,
    ensures
        find_last_in(s, x) == Some(j),
    decreases s.len(),
{
    if j < s.len() - 1 {
        assert(s.last() != x);
        assert(s.drop_last()[j] == s[j]);
        assert forall|k: int| j < k < s.drop_last().len() implies s.drop_last()[k] != x by {
            assert(s.drop_last()[k] == s[k]);
        }
        lemma_find_last_at(s.drop_last(), x, j);
    }
}

/// Nothing before the first occurrence is missed: with no occurrence at or
/// after `i`, `find_from` reports `None`.
pub proof fn lemma_find_from_none(s: Seq<u8>, x: u8, i: int)
    requires
        0 <= i,
        forall|k: int| i <= k < s.len() ==> s[k] != x,
    ensures
        find_from(s, x, i) is None,
    decreases s.len() - i,
{
    if i < s.len() {
        lemma_find_from_none(s, x, i + 1);
    }
}

/// With no occurrence at all, `find_last_in` reports `None`.
pub proof fn lemma_find_last_none(s: Seq<u8>, x: u8)
    requires
        forall|k: int| 0 <= k < s.len() ==> s[k] != x,
    ensures
        find_last_in(s, x) is None,
    decreases s.len(),
{
    if s.len() > 0 {
        assert forall|k: int| 0 <= k < s.drop_last().len() implies s.drop_last()[k] != x by {
            assert(s.drop_last()[k] == s[k]);
        }
        lemma_find_last_none(s.drop_last(), x);
    }
}

/// A digit string denotes a non-negative value.
pub proof fn lemma_dec_val_nonneg(s: Seq<u8>)
    requires
        all_digits(s),
    ensures
        dec_val(s) >= 0,
    decreases s.len(),
{
    if s.len() > 0 {
        assert(all_digits(s.drop_last())) by {
            assert forall|i: int| 0 <= i < s.drop_last().len()
                implies is_digit(#[trigger] s.drop_last()[i]) by {
                assert(s.drop_last()[i] == s[i]);
            }
        }
        lemma_dec_val_nonneg(s.drop_last());
    }
}

/// Extending a digit string can only raise its value.
pub proof fn lemma_dec_val_prefix(s: Seq<u8>, n: int)
    requires
        all_digits(s),
        0 <= n <= s.len(),
    ensures
        dec_val(s.take(n)) <= dec_val(s),
    decreases s.len() - n,
{
    if n == s.len() {
        assert(s.take(n) =~= s);
    } else {
        assert(all_digits(s.take(n))) by {
            assert forall|i: int| 0 <= i < s.take(n).len()
                implies is_digit(#[trigger] s.take(n)[i]) by {
                assert(s.take(n)[i] == s[i]);
            }
        }
        lemma_dec_val_nonneg(s.take(n));
        assert(s.take(n + 1).drop_last() =~= s.take(n));
        assert(s.take(n + 1).last() == s[n]);
        assert(dec_val(s.take(n + 1)) == dec_val(s.take(n)) * 10 + (s[n] - 48));
        assert(dec_val(s.take(n)) <= dec_val(s.take(n)) * 10);
        lemma_dec_val_prefix(s, n + 1);
    }
}

/// The canonical digit string of `n` is made of digits and denotes `n`.
pub proof fn lemma_u_dec_digits(n: nat)
    ensures
        all_digits(u_dec(n)),
        u_dec(n).len() >= 1,
        dec_val(u_dec(n)) == n,
    decreases n,
{
    if n < 10 {
        let s = u_dec(n);
        assert(s == seq![(48 + n) as u8]);
        assert(s.drop_last() =~= Seq::<u8>::empty());
        assert(dec_val(Seq::<u8>::empty()) == 0);
        assert(s.last() == (48 + n) as u8);
        assert(dec_val(s) == (48 + n) as u8 - 48);
    } else {
        lemma_u_dec_digits(n / 10);
        let s = u_dec(n);
        let d = (48 + n % 10) as u8;
        assert(n % 10 < 10);
        assert(d == 48 + n % 10);
        assert(s == u_dec(n / 10) + seq![d]);
        assert(s.drop_last() =~= u_dec(n / 10));
        assert(s.last() == d);
        assert(dec_val(s) == dec_val(u_dec(n / 10)) * 10 + (d - 48));
        assert((n / 10) * 10 + n % 10 == n);
        assert forall|i: int| 0 <= i < s.len() implies is_digit(#[trigger] s[i]) by {
            if i < s.len() - 1 {
                assert(s[i] == u_dec(n / 10)[i]);
            }
        }
    }
}

/// The canonical encoding of an in-range number parses back to it, and uses
/// neither the line terminator nor the separator.
pub proof fn lemma_i_dec_parses(p: int)
    requires
        i32::MIN as int <= p <= i32::MAX as int,
    ensures
        dec_of(i_dec(p)) == Some(p),
        i_dec(p).len() >= 1,
        forall|i: int| 0 <= i < i_dec(p).len()
            ==> #[trigger] i_dec(p)[i] != NEWLINE && i_dec(p)[i] != SEPARATOR,
{
    let s = i_dec(p);
    if p < 0 {
        lemma_u_dec_digits((-p) as nat);
        assert(s == seq![45u8] + u_dec((-p) as nat));
        assert(s[0] == 45);
        assert(s.skip(1) =~= u_dec((-p) as nat));
        assert(dec_val(s.skip(1)) == (-p) as nat);
        assert(dec_of(s) == Some(p));
        assert forall|i: int| 0 <= i < s.len()
            implies #[trigger] s[i] != NEWLINE && s[i] != SEPARATOR by {
            if i > 0 {
                assert(s[i] == u_dec((-p) as nat)[i - 1]);
                assert(is_digit(s[i]));
            }
        }
    } else {
        lemma_u_dec_digits(p as nat);
        assert(s == u_dec(p as nat));
        assert(is_digit(s[0]));
        assert(s[0] != 45);
        assert(dec_of(s) == Some(p));
        assert forall|i: int| 0 <= i < s.len()
            implies #[trigger] s[i] != NEWLINE && s[i] != SEPARATOR by {
            assert(is_digit(s[i]));
        }
    }
}

/// The encoded line of an encodable record, stripped of its terminator,
/// parses back to that record.
pub proof fn lemma_record_line_parses(r: RecordView)
    requires
        encodable(r),
    ensures
        ({
            let line = record_line(r);
            &&& line.len() >= 3
            &&& line.last() == NEWLINE
            &&& forall|i: int| 0 <= i < line.len() - 1 ==> #[trigger] line[i] != NEWLINE
            &&& parse_line(line.drop_last()) == Some(r)
        }),
{
    lemma_i_dec_parses(r.priority);
    let line = record_line(r);
    let body = line.drop_last();
    let k = r.target.len() as int;
    assert(body =~= r.target + seq![SEPARATOR] + i_dec(r.priority));
    assert(body[k] == SEPARATOR);
    assert forall|i: int| 0 <= i < line.len() - 1 implies #[trigger] line[i] != NEWLINE by {
        assert(line[i] == body[i]);
        if i < k {
            assert(body[i] == r.target[i]);
        } else if i > k {
            assert(body[i] == i_dec(r.priority)[i - k - 1]);
        }
    }
    assert forall|j: int| k < j < body.len() implies body[j] != SEPARATOR by {
        assert(body[j] == i_dec(r.priority)[j - k - 1]);
    }
    lemma_find_last_at(body, SEPARATOR, k);
    assert(body.skip(k + 1) =~= i_dec(r.priority));
    assert(body.take(k) =~= r.target);
    assert(line.last() == NEWLINE);
    assert(line.len() == r.target.len() + 1 + i_dec(r.priority).len() + 1);
}

/// Encoding a record sequence and parsing the result reproduces exactly the
/// same sequence of (target, priority) records.
pub proof fn lemma_encode_parse_round_trip(rs: Seq<RecordView>)
    requires
        forall|i: int| 0 <= i < rs.len() ==> encodable(#[trigger] rs[i]),
    ensures
        parse_content(encode_records(rs)) == Some(rs),
    decreases rs.len(),
{
    if rs.len() == 0 {
        assert(parse_content(encode_records(rs)) == Some(Seq::<RecordView>::empty()));
        assert(Seq::<RecordView>::empty() =~= rs);
    } else {
        let r = rs[0];
        lemma_record_line_parses(r);
        let line = record_line(r);
        let rest = encode_records(rs.skip(1));
        let c = encode_records(rs);
        assert(c == line + rest);
        assert(c.len() > 0);
        let k = line.len() - 1;
        assert(c[k] == line[k]);
        assert(c[k] == NEWLINE);
        assert forall|m: int| 0 <= m < k implies c[m] != NEWLINE by {
            assert(c[m] == line[m]);
        }
        lemma_find_from_at(c, NEWLINE, 0, k);
        assert(c.take(k) =~= line.drop_last());
        assert(c.skip(k + 1) =~= rest);
        assert forall|i: int| 0 <= i < rs.skip(1).len() implies encodable(#[trigger] rs.skip(1)[i]) by {
            assert(rs.skip(1)[i] == rs[i + 1]);
        }
        lemma_encode_parse_round_trip(rs.skip(1));
        assert(parse_content(c) == Some(seq![r] + rs.skip(1)));
        assert(seq![r] + rs.skip(1) =~= rs);
    }
}

/// Appending one record's line to an encoding extends it at the end.
pub proof fn lemma_encode_push(rs: Seq<RecordView>, r: RecordView)
    ensures
        encode_records(rs.push(r)) == encode_records(rs) + record_line(r),
    decreases rs.len(),
{
    if rs.len() == 0 {
        assert(rs.push(r)[0] == r);
        assert(rs.push(r).skip(1) =~= Seq::<RecordView>::empty());
        assert(encode_records(Seq::<RecordView>::empty()) == Seq::<u8>::empty());
        assert(encode_records(rs.push(r)) == record_line(r) + Seq::<u8>::empty());
        assert(record_line(r) + Seq::<u8>::empty() =~= record_line(r));
        assert(encode_records(rs) + record_line(r) =~= record_line(r));
    } else {
        assert(rs.push(r).skip(1) =~= rs.skip(1).push(r));
        lemma_encode_push(rs.skip(1), r);
        assert(rs.push(r)[0] == rs[0]);
        assert(encode_records(rs.push(r))
            == record_line(rs[0]) + (encode_records(rs.skip(1)) + record_line(r)));
        assert(encode_records(rs) == record_line(rs[0]) + encode_records(rs.skip(1)));
        assert(record_line(rs[0]) + (encode_records(rs.skip(1)) + record_line(r))
            =~= (record_line(rs[0]) + encode_records(rs.skip(1))) + record_line(r));
    }
}

/// Parses a priority field: an optional minus sign, then decimal digits,
/// rejecting values outside the 32-bit range.
pub fn parse_i32(s: &[u8]) -> (r: Option<i32>)
    ensures
        match r {
            Some(p) => dec_of(s@) == Some(p as int),
            None => dec_of(s@) is None,
        },
{
    if s.len() == 0 {
        return None;
    }
    let neg = s[0] == 45;
    let start: usize = if neg { 1 } else { 0 };
    if start >= s.len() {
        return None;
    }
    let ghost ds: Seq<u8> = if neg { s@.skip(1) } else { s@ };
    proof {
        assert(ds.len() == s@.len() - start);
        assert forall|m: int| 0 <= m < ds.len() implies ds[m] == s@[m + start] by {}
    }
    let mut acc: u64 = 0;
    let mut i: usize = start;
    while i < s.len()
        invariant
            start <= i <= s@.len(),
            start < s@.len(),
            start == if neg { 1int } else { 0int },
            neg ==> s@[0] == 45,
            !neg ==> s@[0] != 45,
            ds == if neg { s@.skip(1) } else { s@ },
            ds.len() == s@.len() - start,
            forall|m: int| 0 <= m < ds.len() ==> ds[m] == s@[m + start],
            forall|k: int| start <= k < i ==> is_digit(#[trigger] s@[k]),
            acc == dec_val(s@.subrange(start as int, i as int)),
            acc <= 0x8000_0000,
        decreases s@.len() - i,
    {
        let c = s[i];
        if c < 48 || c > 57 {
            proof {
                assert(ds[i - start] == s@[i as int]);
                assert(!is_digit(ds[i - start]));
                assert(!all_digits(ds));
            }
            return None;
        }
        proof {
            assert(s@.subrange(start as int, i as int + 1).drop_last()
                =~= s@.subrange(start as int, i as int));
            assert(s@.subrange(start as int, i as int + 1).last() == s@[i as int]);
        }
        acc = acc * 10 + ((c - 48) as u64);
        if acc > 0x8000_0000 {
            proof {
                let n1 = i as int + 1 - start;
                assert(ds.take(n1) =~= s@.subrange(start as int, i as int + 1));
                if all_digits(ds) {
                    lemma_dec_val_prefix(ds, n1);
                    assert(dec_val(ds) > 0x8000_0000);
                }
            }
            return None;
        }
        i = i + 1;
    }
    proof {
        assert(s@.subrange(start as int, s@.len() as int) =~= ds);
        assert forall|m: int| 0 <= m < ds.len() implies is_digit(#[trigger] ds[m]) by {
            assert(ds[m] == s@[m + start]);
        }
        assert(acc == dec_val(ds));
        lemma_dec_val_nonneg(ds);
    }
    if neg {
        let v = -(acc as i64);
        proof {
            assert(-0x8000_0000 <= v <= 0);
        }
        Some(v as i32)
    } else if acc > 0x7FFF_FFFF {
        proof {
            assert(dec_val(ds) > i32::MAX as int);
        }
        None
    } else {
        Some(acc as i32)
    }
}

/// Appends the canonical digit string of `n`.
fn push_u_dec(n: u32, out: &mut Vec<u8>)
    ensures
        final(out)@ == old(out)@ + u_dec(n as nat),
    decreases n,
{
    if n < 10 {
        out.push(48 + (n as u8));
        proof {
            assert(final(out)@ =~= old(out)@ + u_dec(n as nat));
        }
    } else {
        let q = n / 10;
        let rem = n % 10;
        proof {
            vstd::arithmetic::div_mod::lemma_div_decreases(n as int, 10);
        }
        push_u_dec(q, out);
        out.push(48 + (rem as u8));
        proof {
            assert(48 + (rem as u8) == (48 + (n as nat) % 10) as u8);
            assert(final(out)@ =~= old(out)@ + u_dec(n as nat));
        }
    }
}

/// Appends the canonical decimal encoding of `p`.
pub fn push_i32(p: i32, out: &mut Vec<u8>)
    ensures
        final(out)@ == old(out)@ + i_dec(p as int),
{
    if p < 0 {
        out.push(45);
        let m = (-(p as i64)) as u32;
        proof {
            assert(0 < -(p as int) <= 0x8000_0000);
            assert(m as nat == (-(p as int)) as nat);
        }
        push_u_dec(m, out);
        proof {
            assert(final(out)@ =~= old(out)@ + i_dec(p as int));
        }
    } else {
        push_u_dec(p as u32, out);
        proof {
            assert(final(out)@ =~= old(out)@ + i_dec(p as int));
        }
    }
}

/// Appends a byte slice.
pub fn push_bytes(out: &mut Vec<u8>, s: &[u8])
    ensures
        final(out)@ == old(out)@ + s@,
{
    let mut i: usize = 0;
    while i < s.len()
        invariant
            0 <= i <= s@.len(),
            out@ == old(out)@ + s@.take(i as int),
        decreases s@.len() - i,
    {
        out.push(s[i]);
        proof {
            assert(old(out)@ + s@.take(i as int + 1)
                =~= (old(out)@ + s@.take(i as int)).push(s@[i as int]));
        }
        i = i + 1;
    }
    proof {
        assert(s@.take(s@.len() as int) =~= s@);
    }
}

/// Encodes a group's records into their on-disk file content.
pub fn encode_group(records: &Vec<Record>) -> (out: Vec<u8>)
    ensures
        out@ == encode_records(views_of(records@)),
{
    let ghost rvs = views_of(records@);
    let mut out: Vec<u8> = Vec::new();
    proof {
        assert(out@ =~= encode_records(rvs.take(0)));
    }
    let mut i: usize = 0;
    while i < records.len()
        invariant
            0 <= i <= records@.len(),
            rvs == views_of(records@),
            rvs.len() == records@.len(),
            out@ == encode_records(rvs.take(i as int)),
        decreases records@.len() - i,
    {
        let ghost out0 = out@;
        let r = &records[i];
        push_bytes(&mut out, r.target().as_slice());
        out.push(SEPARATOR);
        push_i32(r.priority(), &mut out);
        out.push(NEWLINE);
        proof {
            assert(rvs[i as int] == records@[i as int]@);
            assert(out@ =~= out0 + record_line(rvs[i as int]));
            lemma_encode_push(rvs.take(i as int), rvs[i as int]);
            assert(rvs.take(i as int).push(rvs[i as int]) =~= rvs.take(i as int + 1));
        }
        i = i + 1;
    }
    proof {
        assert(rvs.take(rvs.len() as int) =~= rvs);
    }
    out
}

/// Parses one file's content into its records; `None` when any line is
/// malformed.
pub fn parse_records(content: &[u8]) -> (r: Option<Vec<Record>>)
    ensures
        match r {
            Some(v) => parse_content(content@) == Some(views_of(v@)),
            None => parse_content(content@) is None,
        },
{
    let c = content;
    let mut recs: Vec<Record> = Vec::new();
    let mut pos: usize = 0;
    proof {
        assert(c@.skip(0) =~= c@);
        assert(views_of(recs@) =~= Seq::<RecordView>::empty());
    }
    while pos < c.len()
        invariant
            c@ == content@,
            0 <= pos <= c@.len(),
            match parse_content(c@.skip(pos as int)) {
                Some(rest) => parse_content(c@) == Some(views_of(recs@) + rest),
                None => parse_content(c@) is None,
            },
        decreases c@.len() - pos,
    {
        let ghost suffix = c@.skip(pos as int);
        // Scan the current line for its terminator, remembering the last
        // separator seen on the way.
        let mut j: usize = pos;
        let mut sep: Option<usize> = None;
        while j < c.len() && c[j] != NEWLINE
            invariant
                pos <= j <= c@.len(),
                forall|m: int| pos <= m < j ==> c@[m] != NEWLINE,
                match sep {
                    Some(k) => pos <= k < j && c@[k as int] == SEPARATOR
                        && (forall|m: int| k < m < j ==> c@[m] != SEPARATOR),
                    None => forall|m: int| pos <= m < j ==> c@[m] != SEPARATOR,
                },
            decreases c@.len() - j,
        {
            if c[j] == SEPARATOR {
                sep = Some(j);
            }
            j = j + 1;
        }
        proof {
            assert forall|m: int| 0 <= m < suffix.len() implies suffix[m] == c@[m + pos] by {}
        }
        if j == c.len() {
            // No terminator: the remaining bytes are not a sequence of lines.
            proof {
                assert forall|m: int| 0 <= m < suffix.len() implies suffix[m] != NEWLINE by {
                    assert(suffix[m] == c@[m + pos]);
                }
                lemma_find_from_none(suffix, NEWLINE, 0);
                assert(parse_content(suffix) is None);
            }
            return None;
        }
        let ghost nl = j as int - pos;
        let ghost line = suffix.take(nl);
        proof {
            assert(suffix[nl] == c@[j as int]);
            assert forall|m: int| 0 <= m < nl implies suffix[m] != NEWLINE by {
                assert(suffix[m] == c@[m + pos]);
            }
            lemma_find_from_at(suffix, NEWLINE, 0, nl);
            assert forall|m: int| 0 <= m < line.len() implies line[m] == c@[m + pos] by {
                assert(line[m] == suffix[m]);
            }
        }
        match sep {
            None => {
                proof {
                    assert forall|m: int| 0 <= m < line.len() implies line[m] != SEPARATOR by {
                        assert(line[m] == c@[m + pos]);
                    }
                    lemma_find_last_none(line, SEPARATOR);
                    assert(parse_line(line) is None);
                    assert(parse_content(suffix) is None);
                }
                return None;
            },
            Some(k) => {
                let ghost sp = k as int - pos;
                proof {
                    assert(line[sp] == c@[k as int]);
                    assert forall|m: int| sp < m < line.len() implies line[m] != SEPARATOR by {
                        assert(line[m] == c@[m + pos]);
                    }
                    lemma_find_last_at(line, SEPARATOR, sp);
                }
                let num = slice_subrange(c, k + 1, j);
                proof {
                    assert(num@ =~= line.skip(sp + 1));
                }
                match parse_i32(num) {
                    None => {
                        proof {
                            assert(parse_line(line) is None);
                            assert(parse_content(suffix) is None);
                        }
                        return None;
                    },
                    Some(p) => {
                        let target = slice_to_vec(slice_subrange(c, pos, k));
                        proof {
                            assert(target@ =~= line.take(sp));
                        }
                        let rec = Record::from_parts(target, p);
                        let ghost rv = rec@;
                        proof {
                            assert(parse_line(line) == Some(rv));
                        }
                        let ghost recs0 = recs@;
                        recs.push(rec);
                        proof {
                            assert(views_of(recs@) =~= views_of(recs0).push(rv));
                            assert(suffix.skip(nl + 1) =~= c@.skip(j as int + 1));
                            match parse_content(c@.skip(j as int + 1)) {
                                Some(rest2) => {
                                    assert(parse_content(suffix) == Some(seq![rv] + rest2));
                                    assert(views_of(recs0) + (seq![rv] + rest2)
                                        =~= views_of(recs@) + rest2);
                                },
                                None => {
                                    assert(parse_content(suffix) is None);
                                },
                            }
                        }
                        pos = j + 1;
                    },
                }
            },
        }
    }
    proof {
        assert(c@.skip(c@.len() as int) =~= Seq::<u8>::empty());
        assert(parse_content(c@.skip(pos as int)) == Some(Seq::<RecordView>::empty()));
        assert(views_of(recs@) + Seq::<RecordView>::empty() =~= views_of(recs@));
    }
    Some(recs)
}

/// Every record a file denotes has a target that fits on a line.
pub proof fn lemma_parse_content_targets_storable(c: Seq<u8>)
    requires
        parse_content(c) is Some,
    ensures
        ({
            let rs = parse_content(c)->Some_0;
            forall|i: int| 0 <= i < rs.len() ==> no_newline(#[trigger] rs[i].target)
        }),
    decreases c.len(),
{
    if c.len() != 0 {
        lemma_find_from_spec(c, NEWLINE, 0);
        let k = find_from(c, NEWLINE, 0)->Some_0;
        let line = c.take(k);
        let rs = parse_content(c)->Some_0;
        lemma_find_last_spec(line, SEPARATOR);
        let sp = find_last_in(line, SEPARATOR)->Some_0;
        let r = parse_line(line)->Some_0;
        assert(r.target == line.take(sp));
        assert(no_newline(r.target)) by {
            assert forall|i: int| 0 <= i < r.target.len() implies r.target[i] != NEWLINE by {
                assert(r.target[i] == c[i]);
            }
        }
        lemma_parse_content_targets_storable(c.skip(k + 1));
        let rest = parse_content(c.skip(k + 1))->Some_0;
        assert(rs == seq![r] + rest);
        assert forall|i: int| 0 <= i < rs.len() implies no_newline(#[trigger] rs[i].target) by {
            if i == 0 {
                assert(rs[i] == r);
            } else {
                assert(rs[i] == rest[i - 1]);
            }
        }
    }
}

} // verus!
