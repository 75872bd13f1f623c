//! Decoding of raw CSV text rows into request records, and the
//! structural header check made before any record is processed.
//!
//! The CSV grammar itself (quoting, separators, equal row lengths) is
//! the parser crate's concern; everything after it -- the expected
//! header, the integer fields, the request line's three parts -- is
//! decoded and checked here.

use vstd::prelude::*;

use crate::records::RecordView;
use crate::records::RequestRecord;
use crate::records::bytes_eq;
use crate::records::clone_bytes;

verus! {

/// Views of a row of byte-string fields.
pub open spec fn bytes_views(s: Seq<Vec<u8>>) -> Seq<Seq<u8>> {
    s.map_values(|v: Vec<u8>| v@)
}

/// Views of a sequence of rows.
pub open spec fn rows_views(s: Seq<Vec<Vec<u8>>>) -> Seq<Seq<Seq<u8>>> {
    s.map_values(|row: Vec<Vec<u8>>| bytes_views(row@))
}

/// The header row every input must carry, in order.
pub open spec fn expected_headers() -> Seq<Seq<u8>> {
    seq![
        seq![114u8, 101u8, 109u8, 111u8, 116u8, 101u8, 104u8, 111u8, 115u8, 116u8],
        seq![114u8, 102u8, 99u8, 57u8, 51u8, 49u8],
        seq![97u8, 117u8, 116u8, 104u8, 117u8, 115u8, 101u8, 114u8],
        seq![100u8, 97u8, 116u8, 101u8],
        seq![114u8, 101u8, 113u8, 117u8, 101u8, 115u8, 116u8],
        seq![115u8, 116u8, 97u8, 116u8, 117u8, 115u8],
        seq![98u8, 121u8, 116u8, 101u8, 115u8],
    ]
}

/// The expected header row as byte strings.
fn expected_headers_vec() -> (r: Vec<Vec<u8>>)
    ensures
        bytes_views(r@) == expected_headers(),
{
    let mut h0: Vec<u8> = Vec::new();
    h0.push(114);
    h0.push(101);
    h0.push(109);
    h0.push(111);
    h0.push(116);
    h0.push(101);
    h0.push(104);
    h0.push(111);
    h0.push(115);
    h0.push(116);
    proof {
        assert(h0@ =~= expected_headers()[0]);
    }
    let mut h1: Vec<u8> = Vec::new();
    h1.push(114);
    h1.push(102);
    h1.push(99);
    h1.push(57);
    h1.push(51);
    h1.push(49);
    proof {
        assert(h1@ =~= expected_headers()[1]);
    }
    let mut h2: Vec<u8> = Vec::new();
    h2.push(97);
    h2.push(117);
    h2.push(116);
    h2.push(104);
    h2.push(117);
    h2.push(115);
    h2.push(101);
    h2.push(114);
    proof {
        assert(h2@ =~= expected_headers()[2]);
    }
    let mut h3: Vec<u8> = Vec::new();
    h3.push(100);
    h3.push(97);
    h3.push(116);
    h3.push(101);
    proof {
        assert(h3@ =~= expected_headers()[3]);
    }
    let mut h4: Vec<u8> = Vec::new();
    h4.push(114);
    h4.push(101);
    h4.push(113);
    h4.push(117);
    h4.push(101);
    h4.push(115);
    h4.push(116);
    proof {
        assert(h4@ =~= expected_headers()[4]);
    }
    let mut h5: Vec<u8> = Vec::new();
    h5.push(115);
    h5.push(116);
    h5.push(97);
    h5.push(116);
    h5.push(117);
    h5.push(115);
    proof {
        assert(h5@ =~= expected_headers()[5]);
    }
    let mut h6: Vec<u8> = Vec::new();
    h6.push(98);
    h6.push(121);
    h6.push(116);
    h6.push(101);
    h6.push(115);
    proof {
        assert(h6@ =~= expected_headers()[6]);
    }
    let mut r: Vec<Vec<u8>> = Vec::new();
    r.push(h0);
    r.push(h1);
    r.push(h2);
    r.push(h3);
    r.push(h4);
    r.push(h5);
    r.push(h6);
    proof {
        assert(bytes_views(r@) =~= expected_headers());
    }
    r
}

/// Whether the header row is exactly the expected one.
pub fn check_headers(h: &Vec<Vec<u8>>) -> (r: bool)
    ensures
        r == (bytes_views(h@) == expected_headers()),
{
    let expected = expected_headers_vec();
    if h.len() != expected.len() {
        proof {
            assert(bytes_views(h@).len() != expected_headers().len());
        }
        return false;
    }
    let mut i: usize = 0;
    while i < h.len()
        invariant
            0 <= i <= h@.len(),
            h@.len() == expected@.len(),
            bytes_views(expected@) == expected_headers(),
            forall|j: int| 0 <= j < i ==> bytes_views(h@)[j] == expected_headers()[j],
        decreases h@.len() - i,
    {
        if !bytes_eq(&h[i], &expected[i]) {
            proof {
                assert(bytes_views(h@)[i as int] == h@[i as int]@);
                assert(bytes_views(expected@)[i as int] == expected@[i as int]@);
                assert(bytes_views(h@) != expected_headers());
            }
            return false;
        }
        proof {
            assert(bytes_views(h@)[i as int] == h@[i as int]@);
            assert(bytes_views(expected@)[i as int] == expected@[i as int]@);
        }
        i += 1;
    }
    proof {
        assert(bytes_views(h@) =~= expected_headers());
    }
    true
}

/// An ASCII decimal digit.
pub open spec fn is_digit(b: u8) -> bool {
    48 <= b <= 57
}

/// Every byte is a digit.
pub open spec fn all_digits(s: Seq<u8>) -> bool {
    forall|i: int| 0 <= i < s.len() ==> is_digit(#[trigger] s[i])
}

/// The number a digit string denotes.
pub open spec fn dec_val(s: Seq<u8>) -> int
    decreases s.len(),
{
    if s.len() == 0 {
        0
    } else {
        dec_val(s.drop_last()) * 10 + (s.last() - 48)
    }
}

/// What parsing a decimal field yields: its value, if the field is a
/// non-empty string of digits whose value fits in a `u64`.
pub open spec fn parse_u64_spec(s: Seq<u8>) -> Option<int> {
    if s.len() > 0 && all_digits(s) && dec_val(s) <= u64::MAX {
        Some(dec_val(s))
    } else {
        None
    }
}

/// Digit strings denote non-negative numbers.
proof fn lemma_dec_val_nonneg(s: Seq<u8>)
    requires
        all_digits(s),
    ensures
        dec_val(s) >= 0,
    decreases s.len(),
{
    if s.len() > 0 {
        assert(forall|i: int| 0 <= i < s.len() - 1 ==> s.drop_last()[i] == s[i]);
        lemma_dec_val_nonneg(s.drop_last());
    }
}

/// A longer digit prefix denotes at least as large a number.
proof fn lemma_dec_val_prefix_mono(s: Seq<u8>, i: int, j: int)
    requires
        all_digits(s),
        0 <= i <= j <= s.len(),
    ensures
        dec_val(s.subrange(0, i)) <= dec_val(s.subrange(0, j)),
    decreases j - i,
{
    if i < j {
        lemma_dec_val_prefix_mono(s, i, j - 1);
        let p = s.subrange(0, j);
        assert(p.drop_last() =~= s.subrange(0, j - 1));
        assert(forall|m: int| 0 <= m < j ==> p[m] == s[m]);
        assert(all_digits(s.subrange(0, j - 1))) by {
            assert(forall|m: int| 0 <= m < j - 1 ==> s.subrange(0, j - 1)[m] == s[m]);
        }
        lemma_dec_val_nonneg(s.subrange(0, j - 1));
        assert(dec_val(p) == dec_val(s.subrange(0, j - 1)) * 10 + (p.last() - 48));
        assert(dec_val(s.subrange(0, j - 1)) * 10 >= dec_val(s.subrange(0, j - 1))) by (
        nonlinear_arith)
            requires
                dec_val(s.subrange(0, j - 1)) >= 0,
        ;
    }
}

/// Parses a non-empty decimal digit string into a `u64`.
pub fn parse_u64(s: &Vec<u8>) -> (r: Option<u64>)
    ensures
        match r {
            Some(v) => parse_u64_spec(s@) == Some(v as int),
            None => parse_u64_spec(s@) is None,
        },
{
    if s.len() == 0 {
        return None;
    }
    let mut v: u64 = 0;
    let mut i: usize = 0;
    proof {
        assert(s@.subrange(0, 0) =~= Seq::<u8>::empty());
    }
    while i < s.len()
        invariant
            0 <= i <= s@.len(),
            s@.len() > 0,
            all_digits(s@.subrange(0, i as int)),
            v as int == dec_val(s@.subrange(0, i as int)),
        decreases s@.len() - i,
    {
        let b = s[i];
        if b < 48 || b > 57 {
            proof {
                assert(!is_digit(s@[i as int]));
            }
            return None;
        }
        let d = b - 48;
        let limit = (u64::MAX - (d as u64)) / 10;
        proof {
            let pre = s@.subrange(0, i as int);
            let pre2 = s@.subrange(0, i + 1);
            assert(pre2.drop_last() =~= pre);
            assert(pre2.last() == s@[i as int]);
            assert(all_digits(pre2)) by {
                assert(forall|m: int| 0 <= m < i + 1 ==> pre2[m] == s@[m]);
            }
            vstd::arithmetic::div_mod::lemma_fundamental_div_mod(u64::MAX - d, 10);
        }
        if v > limit {
            proof {
                let pre2 = s@.subrange(0, i + 1);
                assert(dec_val(pre2) > u64::MAX);
                if parse_u64_spec(s@) is Some {
                    lemma_dec_val_prefix_mono(s@, i + 1, s@.len() as int);
                    assert(s@.subrange(0, s@.len() as int) =~= s@);
                    assert(false);
                }
            }
            return None;
        }
        proof {
            let pre2 = s@.subrange(0, i + 1);
            assert((v as int) * 10 + d <= u64::MAX);
            assert(dec_val(pre2) == (v as int) * 10 + d);
        }
        v = v * 10 + (d as u64);
        i += 1;
    }
    proof {
        assert(s@.subrange(0, s@.len() as int) =~= s@);
    }
    Some(v)
}


/// Index of the first space in `s`, or `s.len()` if there is none.
pub open spec fn first_space(s: Seq<u8>) -> int
    decreases s.len(),
{
    if s.len() == 0 {
        0
    } else if s[0] == 32 {
        0
    } else {
        1 + first_space(s.drop_first())
    }
}

/// Index of the last space in `s`, or `-1` if there is none.
pub open spec fn last_space(s: Seq<u8>) -> int
    decreases s.len(),
{
    if s.len() == 0 {
        -1
    } else if s.last() == 32 {
        s.len() - 1
    } else {
        last_space(s.drop_last())
    }
}

/// What `first_space` points at.
proof fn lemma_first_space_char(s: Seq<u8>)
    ensures
        0 <= first_space(s) <= s.len(),
        first_space(s) < s.len() ==> s[first_space(s)] == 32,
        forall|m: int| 0 <= m < first_space(s) ==> s[m] != 32,
    decreases s.len(),
{
    if s.len() > 0 && s[0] != 32 {
        lemma_first_space_char(s.drop_first());
        assert forall|m: int| 0 <= m < first_space(s) implies s[m] != 32 by {
            if m > 0 {
                assert(s.drop_first()[m - 1] == s[m]);
            }
        }
    }
}

/// What `last_space` points at.
proof fn lemma_last_space_char(s: Seq<u8>)
    ensures
        -1 <= last_space(s) < s.len(),
        last_space(s) >= 0 ==> s[last_space(s)] == 32,
        forall|m: int| last_space(s) < m < s.len() ==> s[m] != 32,
    decreases s.len(),
{
    if s.len() > 0 && s.last() != 32 {
        lemma_last_space_char(s.drop_last());
        assert(forall|m: int| 0 <= m < s.len() - 1 ==> s.drop_last()[m] == s[m]);
    }
}

/// How a request line splits into method, resource and protocol: at its
/// first and last space, which must be distinct. The resource may
/// itself contain spaces.
pub open spec fn split_request_spec(s: Seq<u8>) -> Option<(Seq<u8>, Seq<u8>, Seq<u8>)> {
    let i = first_space(s);
    let j = last_space(s);
    if i < s.len() && i < j {
        Some((s.subrange(0, i), s.subrange(i + 1, j), s.subrange(j + 1, s.len() as int)))
    } else {
        None
    }
}

/// Copies `s[a..b]`.
fn copy_range(s: &Vec<u8>, a: usize, b: usize) -> (r: Vec<u8>)
    requires
        0 <= a <= b <= s@.len(),
    ensures
        r@ == s@.subrange(a as int, b as int),
{
    let mut r: Vec<u8> = Vec::new();
    let mut k: usize = a;
    while k < b
        invariant
            a <= k <= b <= s@.len(),
            r@ =~= s@.subrange(a as int, k as int),
        decreases b - k,
    {
        r.push(s[k]);
        k += 1;
    }
    proof {
        assert(r@ =~= s@.subrange(a as int, b as int));
    }
    r
}

/// Splits a request line into method, resource and protocol.
pub fn split_request(s: &Vec<u8>) -> (r: Option<(Vec<u8>, Vec<u8>, Vec<u8>)>)
    ensures
        match (r, split_request_spec(s@)) {
            (Some(p), Some(q)) => p.0@ == q.0 && p.1@ == q.1 && p.2@ == q.2,
            (None, None) => true,
            _ => false,
        },
{
    proof {
        lemma_first_space_char(s@);
        lemma_last_space_char(s@);
    }
    let mut i: usize = 0;
    while i < s.len() && s[i] != 32
        invariant
            0 <= i <= s@.len(),
            forall|m: int| 0 <= m < i ==> s@[m] != 32,
        decreases s@.len() - i,
    {
        i += 1;
    }
    proof {
        let fs = first_space(s@);
        if i < fs {
            assert(s@[i as int] == 32);
            assert(false);
        }
        if fs < i {
            assert(s@[fs] != 32);
            assert(false);
        }
    }
    if i >= s.len() {
        return None;
    }
    let mut j: usize = s.len() - 1;
    while j > 0 && s[j] != 32
        invariant
            0 <= j < s@.len(),
            forall|m: int| j < m < s@.len() ==> s@[m] != 32,
        decreases j,
    {
        j -= 1;
    }
    let ghost ls = last_space(s@);
    if s[j] != 32 {
        proof {
            assert(j == 0);
            if ls >= 0 {
                assert(s@[ls] == 32);
                assert(false);
            }
        }
        return None;
    }
    proof {
        if (j as int) < ls {
            assert(s@[ls] == 32);
            assert(false);
        }
        if ls < j as int {
            assert(s@[j as int] != 32);
            assert(false);
        }
    }
    if i >= j {
        return None;
    }
    let method = copy_range(s, 0, i);
    let resource = copy_range(s, i + 1, j);
    let protocol = copy_range(s, j + 1, s.len());
    Some((method, resource, protocol))
}

/// What decoding one CSV row yields: a record, if the row has exactly
/// the seven expected fields, its date, status and bytes fields are
/// decimal numbers, and its request field splits into three parts. The
/// second field (the identd name) is not kept.
pub open spec fn decode_row_spec(row: Seq<Seq<u8>>) -> Option<RecordView> {
    if row.len() != 7 {
        None
    } else {
        let ts = parse_u64_spec(row[3]);
        let st = parse_u64_spec(row[5]);
        let by = parse_u64_spec(row[6]);
        let parts = split_request_spec(row[4]);
        if ts is Some && st is Some && by is Some && parts is Some {
            Some(
                RecordView {
                    remote_host: row[0],
                    auth_user: row[2],
                    timestamp: ts->Some_0,
                    method: parts->Some_0.0,
                    resource: parts->Some_0.1,
                    protocol: parts->Some_0.2,
                    status_code: st->Some_0,
                    bytes: by->Some_0,
                },
            )
        } else {
            None
        }
    }
}

/// Decodes one CSV row into a record.
pub fn decode_record(row: &Vec<Vec<u8>>) -> (r: Option<RequestRecord>)
    ensures
        match r {
            Some(rec) => decode_row_spec(bytes_views(row@)) == Some(rec@),
            None => decode_row_spec(bytes_views(row@)) is None,
        },
{
    proof {
        assert(bytes_views(row@).len() == row@.len());
    }
    if row.len() != 7 {
        return None;
    }
    proof {
        assert(forall|m: int| 0 <= m < 7 ==> bytes_views(row@)[m] == row@[m]@);
    }
    let ts = match parse_u64(&row[3]) {
        Some(v) => v,
        None => {
            return None;
        },
    };
    let st = match parse_u64(&row[5]) {
        Some(v) => v,
        None => {
            return None;
        },
    };
    let by = match parse_u64(&row[6]) {
        Some(v) => v,
        None => {
            return None;
        },
    };
    let parts = match split_request(&row[4]) {
        Some(p) => p,
        None => {
            return None;
        },
    };
    let rec = RequestRecord {
        remote_host: clone_bytes(&row[0]),
        auth_user: clone_bytes(&row[2]),
        timestamp: ts,
        method: parts.0,
        resource: parts.1,
        protocol: parts.2,
        status_code: st,
        bytes: by,
    };
    Some(rec)
}

} // verus!
