use vstd::prelude::*;
use vstd::relations::{sorted_by, total_ordering};
use vstd::seq_lib::lemma_sorted_unique;

verus! {

/// Classified result of one request attempt: a success with the full
/// response length and the time it took, or a failure with the numeric
/// status code from the response's status line.
#[derive(Clone, Copy, Debug, PartialEq, Eq, Structural)]
pub enum RequestOutcome {
    Success { byte_len: usize, elapsed_millis: u64 },
    Failure { status_code: u16 },
}

/// Aggregate over a run of request attempts.  Failures contribute only
/// their status code; latency and size statistics count successes alone.
pub struct ProfileReport {
    /// How many attempts were folded in.
    pub total_requests: usize,
    /// Elapsed milliseconds of the successful attempts, in arrival order.
    pub latencies: Vec<u64>,
    /// The distinct status codes of the failed attempts, each once, in
    /// order of first occurrence.
    pub error_codes: Vec<u16>,
    /// Smallest successful response size, if any attempt succeeded.
    pub min_response_bytes: Option<usize>,
    /// Largest successful response size, if any attempt succeeded.
    pub max_response_bytes: Option<usize>,
}

/// Mathematical model of a [`ProfileReport`].
pub ghost struct ReportView {
    pub total_requests: nat,
    pub latencies: Seq<u64>,
    pub error_codes: Seq<u16>,
    pub min_response_bytes: Option<usize>,
    pub max_response_bytes: Option<usize>,
}

impl View for ProfileReport {
    type V = ReportView;

    open spec fn view(&self) -> ReportView {
        ReportView {
            total_requests: self.total_requests as nat,
            latencies: self.latencies@,
            error_codes: self.error_codes@,
            min_response_bytes: self.min_response_bytes,
            max_response_bytes: self.max_response_bytes,
        }
    }
}

/// The report before any attempt was folded in.
pub open spec fn empty_report() -> ReportView {
    ReportView {
        total_requests: 0,
        latencies: Seq::empty(),
        error_codes: Seq::empty(),
        min_response_bytes: None,
        max_response_bytes: None,
    }
}

/// How one outcome changes a report: a success appends its latency and
/// tightens the size bounds; a failure adds its status code to the
/// distinct codes if it is new.  Either way one more attempt is counted.
pub open spec fn spec_step(r: ReportView, o: RequestOutcome) -> ReportView {
    match o {
        RequestOutcome::Success { byte_len, elapsed_millis } => ReportView {
            total_requests: r.total_requests + 1,
            latencies: r.latencies.push(elapsed_millis),
            error_codes: r.error_codes,
            min_response_bytes: Some(
                match r.min_response_bytes {
                    None => byte_len,
                    Some(m) => if byte_len < m {
                        byte_len
                    } else {
                        m
                    },
                },
            ),
            max_response_bytes: Some(
                match r.max_response_bytes {
                    None => byte_len,
                    Some(m) => if byte_len > m {
                        byte_len
                    } else {
                        m
                    },
                },
            ),
        },
        RequestOutcome::Failure { status_code } => ReportView {
            total_requests: r.total_requests + 1,
            latencies: r.latencies,
            error_codes: if r.error_codes.contains(status_code) {
                r.error_codes
            } else {
                r.error_codes.push(status_code)
            },
            min_response_bytes: r.min_response_bytes,
            max_response_bytes: r.max_response_bytes,
        },
    }
}

/// The report for a whole sequence of outcomes, folded in left to right.
pub open spec fn spec_fold(s: Seq<RequestOutcome>) -> ReportView
    decreases s.len(),
{
    if s.len() == 0 {
        empty_report()
    } else {
        spec_step(spec_fold(s.drop_last()), s.last())
    }
}

/// How many outcomes in `s` are failures.
pub open spec fn failure_count(s: Seq<RequestOutcome>) -> int
    decreases s.len(),
{
    if s.len() == 0 {
        0
    } else {
        failure_count(s.drop_last()) + if s.last() is Failure {
            1int
        } else {
            0int
        }
    }
}

/// `code` occurs in `codes`.
fn contains_code(codes: &Vec<u16>, code: u16) -> (r: bool)
    ensures
        r == codes@.contains(code),
{
    let mut i: usize = 0;
    while i < codes.len()
        invariant
            0 <= i <= codes@.len(),
            forall|j: int| 0 <= j < i ==> codes@[j] != code,
        decreases codes@.len() - i,
    {
        if codes[i] == code {
            return true;
        }
        i += 1;
    }
    false
}

impl ProfileReport {
    /// A report with no attempts folded in yet.
    pub fn new() -> (r: Self)
        ensures
            r@ == empty_report(),
    {
        let r = ProfileReport {
            total_requests: 0,
            latencies: Vec::new(),
            error_codes: Vec::new(),
            min_response_bytes: None,
            max_response_bytes: None,
        };
        proof {
            assert(r@.latencies =~= empty_report().latencies);
            assert(r@.error_codes =~= empty_report().error_codes);
        }
        r
    }

    /// Fold one outcome into the report.
    pub fn record(&mut self, outcome: RequestOutcome)
        requires
            old(self).total_requests < usize::MAX,
        ensures
            final(self)@ == spec_step(old(self)@, outcome),
    {
        self.total_requests = self.total_requests + 1;
        match outcome {
            RequestOutcome::Success { byte_len, elapsed_millis } => {
                self.latencies.push(elapsed_millis);
                self.min_response_bytes = Some(
                    match self.min_response_bytes {
                        None => byte_len,
                        Some(m) => if byte_len < m {
                            byte_len
                        } else {
                            m
                        },
                    },
                );
                self.max_response_bytes = Some(
                    match self.max_response_bytes {
                        None => byte_len,
                        Some(m) => if byte_len > m {
                            byte_len
                        } else {
                            m
                        },
                    },
                );
            },
            RequestOutcome::Failure { status_code } => {
                if !contains_code(&self.error_codes, status_code) {
                    self.error_codes.push(status_code);
                }
            },
        }
    }
}

/// The latency statistics of a run with at least one success, derived
/// from the ascending rearrangement of the latency sequence.
#[derive(Clone, Copy, Debug, PartialEq, Eq, Structural)]
pub struct LatencyStats {
    /// First element of the ascending latencies.
    pub fastest: u64,
    /// Last element of the ascending latencies.
    pub slowest: u64,
    /// Element at index `count / 2` of the ascending latencies: the
    /// upper median for an even count.
    pub median: u64,
    /// Sum of all latencies; with `count` it gives the mean.
    pub total_millis: u128,
    /// How many attempts succeeded.
    pub count: usize,
}

impl ProfileReport {
    /// The recorded latencies in ascending order.
    pub fn sorted_latencies(&self) -> (r: Vec<u64>)
        ensures
            r@ == sorted_of(self.latencies@),
    {
        let mut r = copy_u64_vec(&self.latencies);
        sort_u64(&mut r);
        proof {
            lemma_sorted_of_ensures(self.latencies@);
            lemma_sorted_sequence_unique(r@, sorted_of(self.latencies@));
        }
        r
    }

    /// Sum of the recorded latencies.
    pub fn latency_sum(&self) -> (r: u128)
        ensures
            r == seq_sum(self.latencies@),
    {
        let mut total: u128 = 0;
        let mut i: usize = 0;
        while i < self.latencies.len()
            invariant
                0 <= i <= self.latencies@.len(),
                total == seq_sum(self.latencies@.subrange(0, i as int)),
                total <= i * (u64::MAX as int),
            decreases self.latencies@.len() - i,
        {
            proof {
                let pre = self.latencies@.subrange(0, i as int);
                let post = self.latencies@.subrange(0, i + 1);
                assert(post.drop_last() =~= pre);
                assert(post.last() == self.latencies@[i as int]);
            }
            total = total + self.latencies[i] as u128;
            i += 1;
        }
        proof {
            assert(self.latencies@.subrange(0, self.latencies@.len() as int)
                =~= self.latencies@);
        }
        total
    }

    /// The four latency statistics with the success count, or `None`
    /// when no attempt succeeded and no statistic is available.
    pub fn latency_stats(&self) -> (r: Option<LatencyStats>)
        ensures
            (r is Some) <==> self.latencies@.len() > 0,
            (r matches Some(st) ==> {
                let asc = sorted_of(self.latencies@);
                &&& st.fastest == asc.first()
                &&& st.slowest == asc.last()
                &&& st.median == asc[asc.len() as int / 2]
                &&& st.total_millis == seq_sum(self.latencies@)
                &&& st.count == self.latencies@.len()
            }),
    {
        if self.latencies.len() == 0 {
            return None;
        }
        let asc = self.sorted_latencies();
        proof {
            lemma_sorted_of_ensures(self.latencies@);
        }
        let count = self.latencies.len();
        Some(
            LatencyStats {
                fastest: asc[0],
                slowest: asc[asc.len() - 1],
                median: asc[asc.len() / 2],
                total_millis: self.latency_sum(),
                count,
            },
        )
    }
}

/// Build the report for a whole run: every outcome folded in, in order.
pub fn run_profile(outcomes: &Vec<RequestOutcome>) -> (r: ProfileReport)
    ensures
        r@ == spec_fold(outcomes@),
        r.total_requests == outcomes@.len(),
        r.latencies@.len() + failure_count(outcomes@) == outcomes@.len(),
{
    let mut report = ProfileReport::new();
    proof {
        assert(outcomes@.subrange(0, 0) =~= Seq::<RequestOutcome>::empty());
    }
    let mut i: usize = 0;
    while i < outcomes.len()
        invariant
            0 <= i <= outcomes@.len(),
            report@ == spec_fold(outcomes@.subrange(0, i as int)),
            report.total_requests == i,
        decreases outcomes@.len() - i,
    {
        report.record(outcomes[i]);
        proof {
            let pre = outcomes@.subrange(0, i as int);
            let post = outcomes@.subrange(0, i + 1);
            assert(post.drop_last() =~= pre);
            assert(post.last() == outcomes@[i as int]);
        }
        i += 1;
    }
    proof {
        assert(outcomes@.subrange(0, outcomes@.len() as int) =~= outcomes@);
        lemma_every_attempt_classified(outcomes@);
    }
    report
}

/// Ascending order on latencies.
pub open spec fn latency_order() -> spec_fn(u64, u64) -> bool {
    |a: u64, b: u64| a <= b
}

/// `s` is sorted in ascending order.
pub open spec fn sorted(s: Seq<u64>) -> bool {
    forall|i: int, j: int| 0 <= i < j < s.len() ==> s[i] <= s[j]
}

/// The ascending rearrangement of `s`.
pub open spec fn sorted_of(s: Seq<u64>) -> Seq<u64> {
    s.sort_by(latency_order())
}

/// The sum of the values in `s`.
pub open spec fn seq_sum(s: Seq<u64>) -> int
    decreases s.len(),
{
    if s.len() == 0 {
        0
    } else {
        seq_sum(s.drop_last()) + s.last()
    }
}

/// `sorted_of(s)` is what its name says: an ascending permutation of `s`.
pub proof fn lemma_sorted_of_ensures(s: Seq<u64>)
    ensures
        sorted(sorted_of(s)),
        sorted_of(s).to_multiset() == s.to_multiset(),
        sorted_of(s).len() == s.len(),
{
    broadcast use vstd::seq_lib::group_to_multiset_ensures;

    assert(total_ordering(latency_order()));
    s.lemma_sort_by_ensures(latency_order());
    assert(sorted_by(sorted_of(s), latency_order()));
    assert forall|i: int, j: int| 0 <= i < j < sorted_of(s).len() implies sorted_of(s)[i]
        <= sorted_of(s)[j] by {
        assert(latency_order()(sorted_of(s)[i], sorted_of(s)[j]));
    }
    assert(sorted_of(s).len() == sorted_of(s).to_multiset().len());
    assert(s.len() == s.to_multiset().len());
}

/// Median selection is deterministic: two ascending sequences with the
/// same values are equal, so position `len / 2` picks the same value
/// however the latencies arrived.
pub proof fn lemma_sorted_sequence_unique(a: Seq<u64>, b: Seq<u64>)
    requires
        sorted(a),
        sorted(b),
        a.to_multiset() == b.to_multiset(),
    ensures
        a == b,
{
    assert(total_ordering(latency_order()));
    assert(sorted_by(a, latency_order()));
    assert(sorted_by(b, latency_order()));
    lemma_sorted_unique(a, b, latency_order());
}

/// Copy of `v`.
fn copy_u64_vec(v: &Vec<u64>) -> (r: Vec<u64>)
    ensures
        r@ == v@,
{
    let mut r: Vec<u64> = Vec::new();
    let mut i: usize = 0;
    while i < v.len()
        invariant
            0 <= i <= v@.len(),
            r@ == v@.subrange(0, i as int),
        decreases v@.len() - i,
    {
        r.push(v[i]);
        proof {
            assert(v@.subrange(0, i + 1).drop_last() =~= v@.subrange(0, i as int));
            assert(r@ =~= v@.subrange(0, i + 1));
        }
        i += 1;
    }
    proof {
        assert(v@.subrange(0, v@.len() as int) =~= v@);
    }
    r
}

/// Sort `v` ascending in place by insertion; the values are kept.
fn sort_u64(v: &mut Vec<u64>)
    ensures
        sorted(final(v)@),
        final(v)@.to_multiset() == old(v)@.to_multiset(),
{
    broadcast use vstd::seq_lib::group_to_multiset_ensures;

    let ghost orig = v@;
    let mut i: usize = 1;
    while i < v.len()
        invariant
            1 <= i,
            v@.len() == orig.len(),
            v@.to_multiset() == orig.to_multiset(),
            sorted(v@.subrange(0, if i < v@.len() {
                i as int
            } else {
                v@.len() as int
            })),
        decreases v@.len() - i,
    {
        proof {
            assert(sorted(v@.subrange(0, i as int)));
            assert forall|a: int, b: int|
                0 <= a < b <= i && b != i as int implies v@[a] <= v@[b] by {
                assert(v@.subrange(0, i as int)[a] == v@[a]);
                assert(v@.subrange(0, i as int)[b] == v@[b]);
            }
        }
        let mut j: usize = i;
        while j > 0 && v[j - 1] > v[j]
            invariant
                0 <= j <= i < v@.len(),
                v@.len() == orig.len(),
                v@.to_multiset() == orig.to_multiset(),
                forall|a: int, b: int|
                    0 <= a < b <= i && b != j ==> v@[a] <= v@[b],
            decreases j,
        {
            let x = v[j - 1];
            let y = v[j];
            let ghost before = v@;
            v.set(j - 1, y);
            v.set(j, x);
            proof {
                lemma_swap_preserves_multiset(before, v@, j - 1, j as int);
            }
            j -= 1;
        }
        proof {
            assert forall|a: int, b: int| 0 <= a < b <= i implies v@[a] <= v@[b] by {
                if b == j as int {
                    assert(j > 0);
                    assert(v@[j as int - 1] <= v@[j as int]);
                    if a < j as int - 1 {
                        assert(v@[a] <= v@[j as int - 1]);
                    }
                }
            }
            assert(sorted(v@.subrange(0, i + 1))) by {
                assert(forall|a: int, b: int|
                    0 <= a < b < i + 1 ==> v@.subrange(0, i + 1)[a] == v@[a] && v@.subrange(
                        0,
                        i + 1,
                    )[b] == v@[b]);
            }
        }
        i += 1;
    }
    proof {
        if v@.len() > 0 {
            assert(v@.subrange(0, v@.len() as int) =~= v@);
        }
    }
}

/// Exchanging two positions of a sequence keeps its multiset of values.
proof fn lemma_swap_preserves_multiset(a: Seq<u64>, b: Seq<u64>, i: int, j: int)
    requires
        0 <= i < j < a.len(),
        b.len() == a.len(),
        b[i] == a[j],
        b[j] == a[i],
        forall|k: int| 0 <= k < a.len() && k != i && k != j ==> a[k] == b[k],
    ensures
        a.to_multiset() == b.to_multiset(),
{
    broadcast use vstd::seq_lib::group_to_multiset_ensures;

    assert(a =~= a.update(i, a[i]).update(j, a[j]));
    assert(b =~= a.update(i, a[j]).update(j, a[i]));
    lemma_update_twice_multiset(a, i, j, a[j], a[i]);
}

/// Writing the values at two positions of a sequence in exchanged
/// order keeps the multiset of the sequence.
proof fn lemma_update_twice_multiset(s: Seq<u64>, i: int, j: int, x: u64, y: u64)
    requires
        0 <= i < j < s.len(),
        x == s[j],
        y == s[i],
    ensures
        s.update(i, x).update(j, y).to_multiset() == s.to_multiset(),
{
    broadcast use vstd::seq_lib::group_to_multiset_ensures;

    let t = s.update(i, x).update(j, y);
    assert(t.remove(j).to_multiset() =~= t.to_multiset().remove(t[j]));
    assert(s.remove(j).to_multiset() =~= s.to_multiset().remove(s[j]));
    assert(t.remove(j) =~= s.remove(j).update(i, x));
    lemma_update_multiset(s.remove(j), i, x);
    assert(s.remove(j).update(i, x).to_multiset() =~= s.remove(j).to_multiset().remove(
        s.remove(j)[i],
    ).insert(x));
    assert(s.remove(j)[i] == s[i]);
    assert(t.to_multiset() =~= t.remove(j).to_multiset().insert(t[j]));
    assert(s.to_multiset() =~= s.remove(j).to_multiset().insert(s[j]));
    assert(t.to_multiset() =~= s.remove(j).to_multiset().remove(s[i]).insert(s[j]).insert(s[i]));
    assert(s.remove(j).to_multiset().contains(s[i])) by {
        assert(s.remove(j)[i] == s[i]);
        assert(s.remove(j).contains(s[i]));
    }
    assert(s.remove(j).to_multiset().remove(s[i]).insert(s[i]) =~= s.remove(j).to_multiset());
    assert(s.remove(j).to_multiset().remove(s[i]).insert(s[j]).insert(s[i])
        =~= s.remove(j).to_multiset().remove(s[i]).insert(s[i]).insert(s[j]));
}

/// Overwriting one position exchanges the old value for the new in the
/// multiset.
proof fn lemma_update_multiset(s: Seq<u64>, i: int, x: u64)
    requires
        0 <= i < s.len(),
    ensures
        s.update(i, x).to_multiset() == s.to_multiset().remove(s[i]).insert(x),
{
    broadcast use vstd::seq_lib::group_to_multiset_ensures;

    let t = s.update(i, x);
    assert(t.remove(i).to_multiset() =~= t.to_multiset().remove(t[i]));
    assert(s.remove(i).to_multiset() =~= s.to_multiset().remove(s[i]));
    assert(t.remove(i) =~= s.remove(i));
    assert(t.to_multiset() =~= t.remove(i).to_multiset().insert(t[i]));
}

/// The elapsed times of the successful outcomes in `s`, in order.
pub open spec fn success_latencies(s: Seq<RequestOutcome>) -> Seq<u64>
    decreases s.len(),
{
    if s.len() == 0 {
        Seq::empty()
    } else {
        match s.last() {
            RequestOutcome::Success { elapsed_millis, .. } => success_latencies(
                s.drop_last(),
            ).push(elapsed_millis),
            RequestOutcome::Failure { .. } => success_latencies(s.drop_last()),
        }
    }
}

/// The response sizes of the successful outcomes in `s`, in order.
pub open spec fn success_sizes(s: Seq<RequestOutcome>) -> Seq<usize>
    decreases s.len(),
{
    if s.len() == 0 {
        Seq::empty()
    } else {
        match s.last() {
            RequestOutcome::Success { byte_len, .. } => success_sizes(
                s.drop_last(),
            ).push(byte_len),
            RequestOutcome::Failure { .. } => success_sizes(s.drop_last()),
        }
    }
}

/// The smallest value in `s`, or `None` when `s` is empty.
pub open spec fn min_of(s: Seq<usize>) -> Option<usize>
    decreases s.len(),
{
    if s.len() == 0 {
        None
    } else {
        match min_of(s.drop_last()) {
            None => Some(s.last()),
            Some(m) => Some(
                if s.last() < m {
                    s.last()
                } else {
                    m
                },
            ),
        }
    }
}

/// The largest value in `s`, or `None` when `s` is empty.
pub open spec fn max_of(s: Seq<usize>) -> Option<usize>
    decreases s.len(),
{
    if s.len() == 0 {
        None
    } else {
        match max_of(s.drop_last()) {
            None => Some(s.last()),
            Some(m) => Some(
                if s.last() > m {
                    s.last()
                } else {
                    m
                },
            ),
        }
    }
}

/// What each field of the folded report is, in terms of the outcomes
/// alone: the latencies are those of the successes in arrival order,
/// and the size bounds are the extremes of the successful sizes.
pub proof fn lemma_report_fields(s: Seq<RequestOutcome>)
    ensures
        spec_fold(s).latencies == success_latencies(s),
        spec_fold(s).min_response_bytes == min_of(success_sizes(s)),
        spec_fold(s).max_response_bytes == max_of(success_sizes(s)),
    decreases s.len(),
{
    if s.len() > 0 {
        lemma_report_fields(s.drop_last());
        match s.last() {
            RequestOutcome::Success { byte_len, .. } => {
                assert(success_sizes(s) == success_sizes(s.drop_last()).push(byte_len));
                assert(success_sizes(s).drop_last() =~= success_sizes(s.drop_last()));
                assert(success_sizes(s).last() == byte_len);
            },
            RequestOutcome::Failure { .. } => {},
        }
    }
}

/// The recorded error codes are exactly the status codes of the failed
/// outcomes, each at most once.
pub proof fn lemma_error_codes_exact(s: Seq<RequestOutcome>)
    ensures
        forall|c: u16|
            #[trigger] spec_fold(s).error_codes.contains(c) <==> exists|i: int|
                0 <= i < s.len() && s[i] == (RequestOutcome::Failure { status_code: c }),
        forall|i: int, j: int|
            0 <= i < j < spec_fold(s).error_codes.len() ==> spec_fold(s).error_codes[i]
                != spec_fold(s).error_codes[j],
    decreases s.len(),
{
    if s.len() > 0 {
        lemma_error_codes_exact(s.drop_last());
        let codes = spec_fold(s).error_codes;
        let prev = spec_fold(s.drop_last()).error_codes;
        assert forall|c: u16| #[trigger] codes.contains(c) implies exists|i: int|
            0 <= i < s.len() && s[i] == (RequestOutcome::Failure { status_code: c }) by {
            if prev.contains(c) {
                let i = choose|i: int|
                    0 <= i < s.drop_last().len() && s.drop_last()[i] == (RequestOutcome::Failure {
                        status_code: c,
                    });
                assert(s[i] == (RequestOutcome::Failure { status_code: c }));
            } else {
                assert(s[s.len() - 1] == (RequestOutcome::Failure { status_code: c }));
            }
        }
        assert forall|c: u16|
            exists|i: int|
                0 <= i < s.len() && s[i] == (RequestOutcome::Failure {
                    status_code: c,
                }) implies #[trigger] codes.contains(c) by {
            let i = choose|i: int|
                0 <= i < s.len() && s[i] == (RequestOutcome::Failure { status_code: c });
            if i < s.len() - 1 {
                assert(s.drop_last()[i] == (RequestOutcome::Failure { status_code: c }));
                assert(prev.contains(c));
                if s.last() is Failure {
                    if !prev.contains(s.last()->Failure_status_code) {
                        assert(codes[prev.index_of(c)] == c);
                    }
                }
            } else {
                match s.last() {
                    RequestOutcome::Failure { status_code } => {
                        if prev.contains(status_code) {
                            assert(codes.contains(c));
                        } else {
                            assert(codes.last() == c);
                        }
                    },
                    RequestOutcome::Success { .. } => {},
                }
            }
        }
        match s.last() {
            RequestOutcome::Failure { status_code } => {
                if !prev.contains(status_code) {
                    assert forall|i: int, j: int| 0 <= i < j < codes.len() implies codes[i]
                        != codes[j] by {
                        if j == codes.len() - 1 {
                            assert(codes[i] == prev[i]);
                            assert(prev.contains(prev[i]));
                        }
                    }
                }
            },
            RequestOutcome::Success { .. } => {},
        }
    }
}

/// Every attempt is classified: the report counts all of them, and the
/// successes and failures together account for each one.
pub proof fn lemma_every_attempt_classified(s: Seq<RequestOutcome>)
    ensures
        spec_fold(s).total_requests == s.len(),
        spec_fold(s).latencies.len() + failure_count(s) == s.len(),
    decreases s.len(),
{
    if s.len() > 0 {
        lemma_every_attempt_classified(s.drop_last());
    }
}

/// When every attempt succeeds, no error code is recorded and every
/// attempt contributes a latency.
pub proof fn lemma_all_successes(s: Seq<RequestOutcome>)
    requires
        forall|i: int| 0 <= i < s.len() ==> s[i] is Success,
    ensures
        spec_fold(s).error_codes == Seq::<u16>::empty(),
        spec_fold(s).latencies.len() == s.len(),
    decreases s.len(),
{
    if s.len() > 0 {
        assert(s[s.len() - 1] is Success);
        lemma_all_successes(s.drop_last());
    }
}

/// When every attempt fails, the latency sequence stays empty and both
/// size bounds stay absent.
pub proof fn lemma_all_failures(s: Seq<RequestOutcome>)
    requires
        forall|i: int| 0 <= i < s.len() ==> s[i] is Failure,
    ensures
        spec_fold(s).latencies == Seq::<u64>::empty(),
        spec_fold(s).min_response_bytes is None,
        spec_fold(s).max_response_bytes is None,
    decreases s.len(),
{
    if s.len() > 0 {
        assert(s[s.len() - 1] is Failure);
        lemma_all_failures(s.drop_last());
    }
}

/// The two size bounds are co-present: each is set exactly when some
/// attempt succeeded.
pub proof fn lemma_size_bounds_co_present(s: Seq<RequestOutcome>)
    ensures
        (spec_fold(s).min_response_bytes is Some) <==> spec_fold(s).latencies.len() > 0,
        (spec_fold(s).max_response_bytes is Some) <==> spec_fold(s).latencies.len() > 0,
    decreases s.len(),
{
    if s.len() > 0 {
        lemma_size_bounds_co_present(s.drop_last());
    }
}

} // verus!
