//! The record data model and the configuration shared by all components.

use vstd::prelude::*;

verus! {

/// Mathematical view of one decoded log entry. Text is modeled as byte
/// sequences; the timestamp is the ordering key of the whole pipeline.
pub ghost struct RecordView {
    pub remote_host: Seq<u8>,
    pub auth_user: Seq<u8>,
    pub timestamp: int,
    pub method: Seq<u8>,
    pub resource: Seq<u8>,
    pub protocol: Seq<u8>,
    pub status_code: int,
    pub bytes: int,
}

/// One decoded log entry. Immutable once constructed.
pub struct RequestRecord {
    pub remote_host: Vec<u8>,
    pub auth_user: Vec<u8>,
    /// Seconds since the epoch; the ordering key.
    pub timestamp: u64,
    pub method: Vec<u8>,
    pub resource: Vec<u8>,
    pub protocol: Vec<u8>,
    pub status_code: u64,
    pub bytes: u64,
}

impl View for RequestRecord {
    type V = RecordView;

    open spec fn view(&self) -> RecordView {
        RecordView {
            remote_host: self.remote_host@,
            auth_user: self.auth_user@,
            timestamp: self.timestamp as int,
            method: self.method@,
            resource: self.resource@,
            protocol: self.protocol@,
            status_code: self.status_code as int,
            bytes: self.bytes as int,
        }
    }
}

/// Read-only configuration shared by all components.
pub struct Config {
    /// Length in seconds of each statistics bucket.
    pub stats_window: u64,
    /// Length in seconds of the sliding alert window.
    pub alert_window: u64,
    /// Threshold average requests-per-second that triggers an alert.
    pub alert_rate: u64,
    /// Maximum seconds a record may lag behind the largest timestamp seen.
    pub maximum_timestamp_error: u64,
}

impl Config {
    /// Both window lengths must be positive for bucketing and rates to
    /// be meaningful.
    pub open spec fn wf(&self) -> bool {
        self.stats_window >= 1 && self.alert_window >= 1
    }
}

impl Clone for Config {
    fn clone(&self) -> (r: Self)
        ensures
            r == *self,
    {
        Config {
            stats_window: self.stats_window,
            alert_window: self.alert_window,
            alert_rate: self.alert_rate,
            maximum_timestamp_error: self.maximum_timestamp_error,
        }
    }
}

impl Default for Config {
    /// The documented default configuration.
    fn default() -> (r: Self)
        ensures
            r.stats_window == 10,
            r.alert_window == 120,
            r.alert_rate == 10,
            r.maximum_timestamp_error == 1,
            r.wf(),
    {
        Config {
            stats_window: 10,
            alert_window: 120,
            alert_rate: 10,
            maximum_timestamp_error: 1,
        }
    }
}

/// The first path segment of a resource: the bytes up to, but not
/// including, the second `/`, or the whole resource if it has fewer
/// than two slashes.
pub open spec fn section_of(resource: Seq<u8>) -> Seq<u8> {
    if exists|j: int| is_second_slash(resource, j) {
        resource.subrange(0, choose|j: int| is_second_slash(resource, j))
    } else {
        resource
    }
}

/// `j` is the index of the second `/` in `s`.
pub open spec fn is_second_slash(s: Seq<u8>, j: int) -> bool {
    0 <= j < s.len() && s[j] == 47u8 && (exists|i: int|
        0 <= i < j && s[i] == 47u8 && (forall|k: int| 0 <= k < j && s[k] == 47u8 ==> k == i))
}

/// There is at most one index of the second slash.
pub proof fn lemma_second_slash_unique(s: Seq<u8>, j1: int, j2: int)
    requires
        is_second_slash(s, j1),
        is_second_slash(s, j2),
    ensures
        j1 == j2,
{
    if j1 < j2 {
        let i2 = choose|i: int|
            0 <= i < j2 && s[i] == 47u8 && (forall|k: int|
                0 <= k < j2 && s[k] == 47u8 ==> k == i);
        let i1 = choose|i: int|
            0 <= i < j1 && s[i] == 47u8 && (forall|k: int|
                0 <= k < j1 && s[k] == 47u8 ==> k == i);
        assert(s[i1] == 47u8 && i1 < j1 < j2);
        assert(s[j1] == 47u8 && j1 < j2);
        assert(i1 == i2 && j1 == i2);
        assert(false);
    } else if j2 < j1 {
        let i1 = choose|i: int|
            0 <= i < j1 && s[i] == 47u8 && (forall|k: int|
                0 <= k < j1 && s[k] == 47u8 ==> k == i);
        let i2 = choose|i: int|
            0 <= i < j2 && s[i] == 47u8 && (forall|k: int|
                0 <= k < j2 && s[k] == 47u8 ==> k == i);
        assert(s[i2] == 47u8 && i2 < j2 < j1);
        assert(s[j2] == 47u8 && j2 < j1);
        assert(i2 == i1 && j2 == i1);
        assert(false);
    }
}

/// Computes the section of a resource path.
pub fn section_of_resource(resource: &Vec<u8>) -> (r: Vec<u8>)
    ensures
        r@ == section_of(resource@),
{
    let mut slashes: u64 = 0;
    let mut i: usize = 0;
    while i < resource.len()
        invariant
            0 <= i <= resource.len(),
            slashes <= i,
            slashes == count_slashes(resource@.subrange(0, i as int)),
            slashes <= 1,
            forall|j: int| 0 <= j < i ==> !is_second_slash(resource@, j),
        decreases resource.len() - i,
    {
        proof {
            assert(resource@.subrange(0, i + 1).drop_last() =~= resource@.subrange(0, i as int));
        }
        if resource[i] == 47u8 {
            if slashes == 1 {
                // i is the second slash: exactly one slash strictly before it.
                proof {
                    lemma_one_slash_means_unique(resource@, i as int);
                    assert(is_second_slash(resource@, i as int));
                }
                let mut out: Vec<u8> = Vec::new();
                let mut k: usize = 0;
                while k < i
                    invariant
                        0 <= k <= i < resource.len(),
                        out@ =~= resource@.subrange(0, k as int),
                    decreases i - k,
                {
                    out.push(resource[k]);
                    k += 1;
                }
                proof {
                    let jj = choose|j: int| is_second_slash(resource@, j);
                    lemma_second_slash_unique(resource@, jj, i as int);
                }
                return out;
            }
            proof {
                if is_second_slash(resource@, i as int) {
                    let ii = choose|x: int|
                        0 <= x < i && resource@[x] == 47u8 && (forall|k: int|
                            0 <= k < i && resource@[k] == 47u8 ==> k == x);
                    lemma_count_slashes_zero(resource@.subrange(0, i as int));
                    assert(resource@.subrange(0, i as int)[ii] == 47u8);
                    assert(false);
                }
            }
            slashes += 1;
        } else {
            proof {
                assert(!is_second_slash(resource@, i as int));
            }
        }
        i += 1;
    }
    proof {
        assert(resource@.subrange(0, resource@.len() as int) =~= resource@);
        if exists|j: int| is_second_slash(resource@, j) {
            let jj = choose|j: int| is_second_slash(resource@, j);
            assert(!is_second_slash(resource@, jj));
        }
    }
    let mut out: Vec<u8> = Vec::new();
    let mut k: usize = 0;
    while k < resource.len()
        invariant
            0 <= k <= resource.len(),
            out@ =~= resource@.subrange(0, k as int),
        decreases resource.len() - k,
    {
        out.push(resource[k]);
        k += 1;
    }
    proof {
        assert(out@ =~= resource@);
    }
    out
}

/// Number of `/` bytes in `s`.
pub open spec fn count_slashes(s: Seq<u8>) -> int
    decreases s.len(),
{
    if s.len() == 0 {
        0
    } else {
        count_slashes(s.drop_last()) + if s.last() == 47u8 {
            1int
        } else {
            0int
        }
    }
}

/// With exactly one slash in the prefix before `j` and a slash at `j`,
/// index `j` is the second slash.
proof fn lemma_one_slash_means_unique(s: Seq<u8>, j: int)
    requires
        0 <= j < s.len(),
        s[j] == 47u8,
        count_slashes(s.subrange(0, j)) == 1,
    ensures
        is_second_slash(s, j),
{
    let p = s.subrange(0, j);
    lemma_count_slashes_one(p);
    let i = choose|i: int| 0 <= i < p.len() && p[i] == 47u8 && (forall|k: int|
        0 <= k < p.len() && p[k] == 47u8 ==> k == i);
    assert(s[i] == 47u8);
    assert forall|k: int| 0 <= k < j && s[k] == 47u8 implies k == i by {
        assert(p[k] == s[k]);
    }
}

/// A sequence with slash-count one has exactly one slash index.
proof fn lemma_count_slashes_one(s: Seq<u8>)
    requires
        count_slashes(s) == 1,
    ensures
        exists|i: int|
            0 <= i < s.len() && s[i] == 47u8 && (forall|k: int|
                0 <= k < s.len() && s[k] == 47u8 ==> k == i),
    decreases s.len(),
{
    lemma_count_slashes_nonneg(s.drop_last());
    if s.last() == 47u8 {
        lemma_count_slashes_zero(s.drop_last());
        let i = s.len() - 1;
        assert(s[i] == 47u8);
        assert(forall|k: int| 0 <= k < s.len() - 1 && s[k] == 47u8 ==> s.drop_last()[k] == 47u8);
        assert(forall|k: int| 0 <= k < s.len() && s[k] == 47u8 ==> k == i);
    } else {
        lemma_count_slashes_one(s.drop_last());
        let i = choose|i: int|
            0 <= i < s.len() - 1 && s.drop_last()[i] == 47u8 && (forall|k: int|
                0 <= k < s.len() - 1 && s.drop_last()[k] == 47u8 ==> k == i);
        assert(s[i] == 47u8);
        assert(forall|k: int| 0 <= k < s.len() - 1 && s[k] == 47u8 ==> s.drop_last()[k] == 47u8);
        assert(forall|k: int| 0 <= k < s.len() && s[k] == 47u8 ==> k == i);
    }
}

/// A slash-free sequence stays slash-free at every index.
proof fn lemma_count_slashes_zero(s: Seq<u8>)
    requires
        count_slashes(s) == 0,
    ensures
        forall|k: int| 0 <= k < s.len() ==> s[k] != 47u8,
    decreases s.len(),
{
    lemma_count_slashes_nonneg(s);
    if s.len() > 0 {
        lemma_count_slashes_nonneg(s.drop_last());
        lemma_count_slashes_zero(s.drop_last());
        assert(forall|k: int| 0 <= k < s.len() - 1 ==> s.drop_last()[k] == s[k]);
    }
}

/// Slash counts are never negative.
proof fn lemma_count_slashes_nonneg(s: Seq<u8>)
    ensures
        count_slashes(s) >= 0,
    decreases s.len(),
{
    if s.len() > 0 {
        lemma_count_slashes_nonneg(s.drop_last());
    }
}

/// Strict lexicographic byte order.
pub open spec fn lex_lt(a: Seq<u8>, b: Seq<u8>) -> bool
    decreases a.len(),
{
    if b.len() == 0 {
        false
    } else if a.len() == 0 {
        true
    } else {
        a[0] < b[0] || (a[0] == b[0] && lex_lt(a.drop_first(), b.drop_first()))
    }
}

/// Lexicographic order is trichotomous.
pub proof fn lemma_lex_trichotomy(a: Seq<u8>, b: Seq<u8>)
    ensures
        lex_lt(a, b) || lex_lt(b, a) || a == b,
        !(lex_lt(a, b) && lex_lt(b, a)),
    decreases a.len() + b.len(),
{
    if a.len() == 0 && b.len() == 0 {
        assert(a =~= b);
    } else if a.len() > 0 && b.len() > 0 {
        lemma_lex_trichotomy(a.drop_first(), b.drop_first());
        if a[0] == b[0] && a.drop_first() == b.drop_first() {
            assert(a =~= Seq::empty().push(a[0]) + a.drop_first());
            assert(b =~= Seq::empty().push(b[0]) + b.drop_first());
        }
    }
}

/// Lexicographic order is transitive.
pub proof fn lemma_lex_transitive(a: Seq<u8>, b: Seq<u8>, c: Seq<u8>)
    requires
        lex_lt(a, b),
        lex_lt(b, c),
    ensures
        lex_lt(a, c),
    decreases a.len() + b.len() + c.len(),
{
    if a.len() > 0 && b.len() > 0 && c.len() > 0 {
        if a[0] == b[0] && b[0] == c[0] {
            lemma_lex_transitive(a.drop_first(), b.drop_first(), c.drop_first());
        }
    }
}

/// Compares two byte strings lexicographically.
pub fn bytes_lt(a: &Vec<u8>, b: &Vec<u8>) -> (r: bool)
    ensures
        r == lex_lt(a@, b@),
{
    let mut i: usize = 0;
    proof {
        assert(a@.subrange(0, a@.len() as int) =~= a@);
        assert(b@.subrange(0, b@.len() as int) =~= b@);
    }
    loop
        invariant
            0 <= i <= a.len(),
            i <= b.len(),
            lex_lt(a@, b@) == lex_lt(a@.subrange(i as int, a@.len() as int), b@.subrange(i as int, b@.len() as int)),
        decreases a.len() - i,
    {
        proof {
            let ra = a@.subrange(i as int, a@.len() as int);
            let rb = b@.subrange(i as int, b@.len() as int);
            if i < a.len() && i < b.len() {
                assert(ra.drop_first() =~= a@.subrange(i + 1, a@.len() as int));
                assert(rb.drop_first() =~= b@.subrange(i + 1, b@.len() as int));
            }
        }
        if i >= b.len() {
            return false;
        }
        if i >= a.len() {
            return true;
        }
        if a[i] < b[i] {
            return true;
        }
        if a[i] > b[i] {
            return false;
        }
        i += 1;
    }
}

/// Tests two byte strings for equality.
pub fn bytes_eq(a: &Vec<u8>, b: &Vec<u8>) -> (r: bool)
    ensures
        r == (a@ == b@),
{
    if a.len() != b.len() {
        return false;
    }
    let mut i: usize = 0;
    while i < a.len()
        invariant
            0 <= i <= a.len(),
            a.len() == b.len(),
            forall|j: int| 0 <= j < i ==> a@[j] == b@[j],
        decreases a.len() - i,
    {
        if a[i] != b[i] {
            return false;
        }
        i += 1;
    }
    proof {
        assert(a@ =~= b@);
    }
    true
}

/// Copies a byte string.
pub fn clone_bytes(v: &Vec<u8>) -> (r: Vec<u8>)
    ensures
        r@ == v@,
{
    let mut r: Vec<u8> = Vec::new();
    let mut i: usize = 0;
    while i < v.len()
        invariant
            0 <= i <= v.len(),
            r@ =~= v@.subrange(0, i as int),
        decreases v.len() - i,
    {
        r.push(v[i]);
        i += 1;
    }
    proof {
        assert(r@ =~= v@);
    }
    r
}

/// Filtering a pushed element.
pub(crate) proof fn lemma_filter_push<A>(s: Seq<A>, x: A, pred: spec_fn(A) -> bool)
    ensures
        s.push(x).filter(pred) == if pred(x) {
            s.filter(pred).push(x)
        } else {
            s.filter(pred)
        },
{
    reveal_with_fuel(Seq::filter, 3);
    assert(s.push(x) =~= s + seq![x]);
    Seq::<A>::filter_distributes_over_add(s, seq![x], pred);
    assert(seq![x].drop_last() =~= Seq::<A>::empty());
    if pred(x) {
        assert(seq![x].filter(pred) =~= seq![x]);
        assert(s.filter(pred) + seq![x] =~= s.filter(pred).push(x));
    } else {
        assert(seq![x].filter(pred) =~= Seq::<A>::empty());
        assert(s.filter(pred) + Seq::<A>::empty() =~= s.filter(pred));
    }
}

/// A filter that rejects every element gives the empty sequence.
pub(crate) proof fn lemma_filter_none<A>(s: Seq<A>, pred: spec_fn(A) -> bool)
    requires
        forall|i: int| 0 <= i < s.len() ==> !pred(#[trigger] s[i]),
    ensures
        s.filter(pred) == Seq::<A>::empty(),
    decreases s.len(),
{
    reveal_with_fuel(Seq::filter, 2);
    if s.len() > 0 {
        assert(forall|j: int| 0 <= j < s.len() - 1 ==> s.drop_last()[j] == s[j]);
        lemma_filter_none(s.drop_last(), pred);
        assert(!pred(s.last()));
    } else {
        assert(s =~= Seq::<A>::empty());
    }
}


/// A filter that accepts every element gives the sequence back.
pub(crate) proof fn lemma_filter_all<A>(s: Seq<A>, pred: spec_fn(A) -> bool)
    requires
        forall|i: int| 0 <= i < s.len() ==> pred(#[trigger] s[i]),
    ensures
        s.filter(pred) == s,
    decreases s.len(),
{
    reveal_with_fuel(Seq::filter, 2);
    if s.len() > 0 {
        assert(forall|j: int| 0 <= j < s.len() - 1 ==> s.drop_last()[j] == s[j]);
        lemma_filter_all(s.drop_last(), pred);
        assert(s.filter(pred) =~= s.drop_last().push(s.last()));
        assert(s.drop_last().push(s.last()) =~= s);
    } else {
        assert(s =~= Seq::<A>::empty());
        assert(s.filter(pred) =~= s);
    }
}

/// Filtering by a stricter predicate after a looser one is filtering by
/// the stricter one alone.
pub(crate) proof fn lemma_filter_narrow<A>(s: Seq<A>, p: spec_fn(A) -> bool, q: spec_fn(A) -> bool)
    requires
        forall|x: A| #[trigger] q(x) ==> p(x),
    ensures
        s.filter(p).filter(q) == s.filter(q),
    decreases s.len(),
{
    reveal_with_fuel(Seq::filter, 2);
    if s.len() > 0 {
        let s0 = s.drop_last();
        let a = s.last();
        lemma_filter_narrow(s0, p, q);
        lemma_filter_push(s0, a, p);
        lemma_filter_push(s0, a, q);
        assert(s0.push(a) =~= s);
        if p(a) {
            lemma_filter_push(s0.filter(p), a, q);
        }
    } else {
        assert(s =~= Seq::<A>::empty());
    }
}


/// An element of a filtered sequence is an element of the sequence.
pub(crate) proof fn lemma_filter_sub<A>(s: Seq<A>, pred: spec_fn(A) -> bool, i: int)
    requires
        0 <= i < s.filter(pred).len(),
    ensures
        s.contains(s.filter(pred)[i]),
    decreases s.len(),
{
    reveal_with_fuel(Seq::filter, 2);
    if s.len() > 0 {
        let f = s.filter(pred);
        if pred(s.last()) && i == f.len() - 1 {
            assert(f[i] == s.last());
            assert(s[s.len() - 1] == s.last());
        } else {
            lemma_filter_sub(s.drop_last(), pred, i);
            let e = s.drop_last().filter(pred)[i];
            let idx = choose|idx: int| 0 <= idx < s.len() - 1 && s.drop_last()[idx] == e;
            assert(s[idx] == e);
        }
    }
}

} // verus!
