//! Anti-forensic detection for systemd journal files.
//!
//! Detects sequence gaps, timestamp regressions, truncation, and suspicious state.
use vstd::prelude::*;
use crate::error::decimal_chars;
use crate::text::{push_radix, push_str};

verus! {

/// A detected integrity anomaly in a journal file.
#[derive(Debug, Clone)]
pub struct IntegrityIndicator {
    pub kind: IntegrityKind,
    pub description: String,
    pub seqnum_start: Option<u64>,
    pub seqnum_end: Option<u64>,
}

/// Category of integrity anomaly.
#[derive(Debug, Clone, Copy, PartialEq, Eq, Structural)]
pub enum IntegrityKind {
    /// Entries deleted between two sequence numbers.
    SequenceGap,
    /// Realtime timestamp decreases (should be monotonically non-decreasing).
    TimestampRegression,
    /// File ends before `tail_object_offset` + last object size.
    Truncation,
    /// Header `state` field is ONLINE (unclean shutdown or active write).
    InvalidState,
}

/// An indicator with its description as characters.
pub struct IndicatorView {
    pub kind: IntegrityKind,
    pub description: Seq<char>,
    pub seqnum_start: Option<u64>,
    pub seqnum_end: Option<u64>,
}

impl View for IntegrityIndicator {
    type V = IndicatorView;

    open spec fn view(&self) -> IndicatorView {
        IndicatorView {
            kind: self.kind,
            description: self.description@,
            seqnum_start: self.seqnum_start,
            seqnum_end: self.seqnum_end,
        }
    }
}

/// True when the indicators `v` are, one for one and in order, the views `w`.
pub open spec fn indicators_are(v: Seq<IntegrityIndicator>, w: Seq<IndicatorView>) -> bool {
    v.len() == w.len() && forall|k: int| 0 <= k < v.len() ==> #[trigger] v[k]@ == w[k]
}

/// The indicator for a break from `a` to `b`: `b - a - 1` entries deleted.
pub open spec fn gap_view(a: u64, b: u64) -> IndicatorView {
    IndicatorView {
        kind: IntegrityKind::SequenceGap,
        description: "sequence gap: "@ + decimal_chars((b - a - 1) as nat)
            + " entries deleted between seqnum "@ + decimal_chars(a as nat) + " and "@
            + decimal_chars(b as nat),
        seqnum_start: Some(a),
        seqnum_end: Some(b),
    }
}

/// The gap indicators of a list of sequence numbers: one for each neighbouring
/// pair `[A, B]` with `B > A + 1`, in list order.
pub open spec fn spec_sequence_gaps(s: Seq<u64>) -> Seq<IndicatorView>
    decreases s.len(),
{
    if s.len() < 2 {
        Seq::empty()
    } else {
        let prev = spec_sequence_gaps(s.drop_last());
        let a = s[s.len() - 2];
        let b = s[s.len() - 1];
        if b > a + 1 {
            prev.push(gap_view(a, b))
        } else {
            prev
        }
    }
}

/// The indicator for a timestamp at index `i` that is below the one before it.
pub open spec fn regression_view(i: nat, prev: u64, cur: u64) -> IndicatorView {
    IndicatorView {
        kind: IntegrityKind::TimestampRegression,
        description: "timestamp regression at index "@ + decimal_chars(i) + ": "@ + decimal_chars(
            cur as nat,
        ) + " < "@ + decimal_chars(prev as nat),
        seqnum_start: None,
        seqnum_end: None,
    }
}

/// The regression indicators of a list of timestamps: one for each index whose
/// timestamp is strictly less than the previous one, in list order.
pub open spec fn spec_timestamp_regressions(t: Seq<u64>) -> Seq<IndicatorView>
    decreases t.len(),
{
    if t.len() < 2 {
        Seq::empty()
    } else {
        let prev = spec_timestamp_regressions(t.drop_last());
        let i = t.len() - 1;
        if t[i] < t[i - 1] {
            prev.push(regression_view(i as nat, t[i - 1], t[i]))
        } else {
            prev
        }
    }
}

/// The truncation indicator.
pub open spec fn truncation_view(file_size: u64, offset: u64, size: u64) -> IndicatorView {
    IndicatorView {
        kind: IntegrityKind::Truncation,
        description: "file truncated: size "@ + decimal_chars(file_size as nat)
            + " is less than tail object offset "@ + decimal_chars(offset as nat)
            + " + last object size "@ + decimal_chars(size as nat),
        seqnum_start: None,
        seqnum_end: None,
    }
}

/// The ONLINE state indicator.
pub open spec fn online_state_view() -> IndicatorView {
    IndicatorView {
        kind: IntegrityKind::InvalidState,
        description: "journal state is ONLINE: the file was not cleanly closed"@,
        seqnum_start: None,
        seqnum_end: None,
    }
}

proof fn lemma_take_step<T>(s: Seq<T>, i: int)
    requires
        1 <= i < s.len(),
    ensures
        s.take(i + 1).drop_last() == s.take(i),
        s.take(i + 1).len() == i + 1,
        s.take(i + 1)[i] == s[i],
        s.take(i + 1)[i - 1] == s[i - 1],
{
    assert(s.take(i + 1).drop_last() =~= s.take(i));
}

/// Detect sequence number gaps in a sorted list of sequence numbers.
///
/// A gap at `[A, B]` where `B > A + 1` means `B - A - 1` entries were deleted.
pub fn detect_sequence_gaps(seqnums: &[u64]) -> (res: Vec<IntegrityIndicator>)
    ensures
        indicators_are(res@, spec_sequence_gaps(seqnums@)),
        res@.len() == jump_indices(seqnums@).len(),
        forall|k: int|
            0 <= k < res@.len() ==> #[trigger] res@[k]@ == gap_view(
                seqnums@[jump_indices(seqnums@)[k] - 1],
                seqnums@[jump_indices(seqnums@)[k]],
            ),
{
    let mut res: Vec<IntegrityIndicator> = Vec::new();
    if seqnums.len() < 2 {
        proof {
            law_gaps_at_jumps(seqnums@);
        }
        return res;
    }
    let mut i: usize = 1;
    proof {
        assert(seqnums@.take(1).len() < 2);
    }
    while i < seqnums.len()
        invariant
            1 <= i <= seqnums@.len(),
            indicators_are(res@, spec_sequence_gaps(seqnums@.take(i as int))),
        decreases seqnums@.len() - i,
    {
        let a = seqnums[i - 1];
        let b = seqnums[i];
        proof {
            lemma_take_step(seqnums@, i as int);
        }
        let ghost before = res@;
        if b > a && b - a > 1 {
            let mut d = String::new();
            push_str(&mut d, "sequence gap: ");
            push_radix(&mut d, b - a - 1, 10);
            push_str(&mut d, " entries deleted between seqnum ");
            push_radix(&mut d, a, 10);
            push_str(&mut d, " and ");
            push_radix(&mut d, b, 10);
            let ind = IntegrityIndicator {
                kind: IntegrityKind::SequenceGap,
                description: d,
                seqnum_start: Some(a),
                seqnum_end: Some(b),
            };
            res.push(ind);
            proof {
                assert(ind@ == gap_view(a, b));
                assert(res@[before.len() as int] == ind);
            }
        }
        i = i + 1;
    }
    proof {
        assert(seqnums@.take(seqnums@.len() as int) =~= seqnums@);
        law_gaps_at_jumps(seqnums@);
    }
    res
}

/// Detect timestamp regressions in a list of realtime timestamps (microseconds).
///
/// A regression is any timestamp strictly less than the previous one.
pub fn detect_timestamp_regressions(timestamps_us: &[u64]) -> (res: Vec<IntegrityIndicator>)
    ensures
        indicators_are(res@, spec_timestamp_regressions(timestamps_us@)),
        res@.len() == drop_indices(timestamps_us@).len(),
        forall|k: int|
            0 <= k < res@.len() ==> #[trigger] res@[k]@ == regression_view(
                drop_indices(timestamps_us@)[k] as nat,
                timestamps_us@[drop_indices(timestamps_us@)[k] - 1],
                timestamps_us@[drop_indices(timestamps_us@)[k]],
            ),
{
    let mut res: Vec<IntegrityIndicator> = Vec::new();
    if timestamps_us.len() < 2 {
        proof {
            law_regressions_at_drops(timestamps_us@);
        }
        return res;
    }
    let mut i: usize = 1;
    proof {
        assert(timestamps_us@.take(1).len() < 2);
    }
    while i < timestamps_us.len()
        invariant
            1 <= i <= timestamps_us@.len(),
            indicators_are(res@, spec_timestamp_regressions(timestamps_us@.take(i as int))),
        decreases timestamps_us@.len() - i,
    {
        let prev = timestamps_us[i - 1];
        let cur = timestamps_us[i];
        proof {
            lemma_take_step(timestamps_us@, i as int);
        }
        let ghost before = res@;
        if cur < prev {
            let mut d = String::new();
            push_str(&mut d, "timestamp regression at index ");
            push_radix(&mut d, i as u64, 10);
            push_str(&mut d, ": ");
            push_radix(&mut d, cur, 10);
            push_str(&mut d, " < ");
            push_radix(&mut d, prev, 10);
            let ind = IntegrityIndicator {
                kind: IntegrityKind::TimestampRegression,
                description: d,
                seqnum_start: None,
                seqnum_end: None,
            };
            res.push(ind);
            proof {
                assert(ind@ == regression_view(i as nat, prev, cur));
                assert(res@[before.len() as int] == ind);
            }
        }
        i = i + 1;
    }
    proof {
        assert(timestamps_us@.take(timestamps_us@.len() as int) =~= timestamps_us@);
        law_regressions_at_drops(timestamps_us@);
    }
    res
}

/// Detect file truncation.
///
/// Returns `Some(indicator)` if `file_size < tail_object_offset + last_object_size`
/// (the sum taken without overflow).
pub fn detect_truncation(file_size: u64, tail_object_offset: u64, last_object_size: u64) -> (res:
    Option<IntegrityIndicator>)
    ensures
        res is Some <==> file_size < tail_object_offset + last_object_size,
        res matches Some(ind) ==> ind@ == truncation_view(
            file_size,
            tail_object_offset,
            last_object_size,
        ),
{
    let truncated = match tail_object_offset.checked_add(last_object_size) {
        Some(end) => file_size < end,
        None => true,
    };
    if !truncated {
        return None;
    }
    let mut d = String::new();
    push_str(&mut d, "file truncated: size ");
    push_radix(&mut d, file_size, 10);
    push_str(&mut d, " is less than tail object offset ");
    push_radix(&mut d, tail_object_offset, 10);
    push_str(&mut d, " + last object size ");
    push_radix(&mut d, last_object_size, 10);
    Some(
        IntegrityIndicator {
            kind: IntegrityKind::Truncation,
            description: d,
            seqnum_start: None,
            seqnum_end: None,
        },
    )
}

/// Detect suspicious journal state.
///
/// State byte `1` means ONLINE (file was not cleanly closed). This is suspicious
/// when the file is being analysed forensically (it could mean active tampering
/// or that the machine crashed, hiding deleted entries).
pub fn detect_online_state(state_byte: u8) -> (res: Option<IntegrityIndicator>)
    ensures
        res is Some <==> state_byte == 1,
        res matches Some(ind) ==> ind@ == online_state_view(),
{
    if state_byte != 1 {
        return None;
    }
    let mut d = String::new();
    push_str(&mut d, "journal state is ONLINE: the file was not cleanly closed");
    Some(
        IntegrityIndicator {
            kind: IntegrityKind::InvalidState,
            description: d,
            seqnum_start: None,
            seqnum_end: None,
        },
    )
}

// ----- laws -----

/// The number of entries a list of gap indicators says were deleted: the sum of
/// `end - start - 1` over the gaps.
pub open spec fn deleted_count(g: Seq<IndicatorView>) -> int
    decreases g.len(),
{
    if g.len() == 0 {
        0
    } else {
        deleted_count(g.drop_last()) + (g.last().seqnum_end.unwrap() - g.last().seqnum_start.unwrap()
            - 1)
    }
}

/// Every neighbouring pair of `s` steps up.
pub open spec fn strictly_increasing(s: Seq<u64>) -> bool {
    forall|i: int| 0 <= i < s.len() - 1 ==> #[trigger] s[i] < s[i + 1]
}

/// No neighbouring pair of `s` jumps by more than one.
pub open spec fn no_jumps(s: Seq<u64>) -> bool {
    forall|i: int| 0 <= i < s.len() - 1 ==> #[trigger] s[i + 1] <= s[i] + 1
}

/// Every timestamp is at least every earlier one.
pub open spec fn non_decreasing(t: Seq<u64>) -> bool {
    forall|i: int, j: int| 0 <= i <= j < t.len() ==> #[trigger] t[i] <= #[trigger] t[j]
}

proof fn lemma_drop_last_neighbours(s: Seq<u64>, i: int)
    requires
        0 <= i < s.len() - 2,
    ensures
        s.drop_last()[i] == s[i],
        s.drop_last()[i + 1] == s[i + 1],
{
}

/// For strictly increasing sequence numbers, the gaps together count every number
/// missing between the first and the last: `last - first + 1 - n` entries deleted.
pub proof fn law_gap_counts_total_deleted(s: Seq<u64>)
    requires
        s.len() >= 1,
        strictly_increasing(s),
    ensures
        deleted_count(spec_sequence_gaps(s)) == s.last() - s[0] + 1 - s.len(),
    decreases s.len(),
{
    if s.len() == 1 {
    } else {
        let t = s.drop_last();
        assert(strictly_increasing(t)) by {
            assert forall|i: int| 0 <= i < t.len() - 1 implies #[trigger] t[i] < t[i + 1] by {
                lemma_drop_last_neighbours(s, i);
                assert(s[i] < s[i + 1]);
            }
        }
        law_gap_counts_total_deleted(t);
        let a = s[s.len() - 2];
        let b = s[s.len() - 1];
        assert(a < b);
        let prev = spec_sequence_gaps(t);
        if b > a + 1 {
            let g = prev.push(gap_view(a, b));
            assert(g.drop_last() =~= prev);
        }
        if s.len() == 2 {
            assert(t[0] == s[0]);
        } else {
            assert(t[0] == s[0]);
        }
    }
}

/// No gap is reported exactly when no neighbouring pair jumps by more than one;
/// in particular consecutive sequence numbers report none.
pub proof fn law_no_gaps_iff_no_jumps(s: Seq<u64>)
    ensures
        spec_sequence_gaps(s).len() == 0 <==> no_jumps(s),
    decreases s.len(),
{
    if s.len() >= 2 {
        let t = s.drop_last();
        law_no_gaps_iff_no_jumps(t);
        if no_jumps(s) {
            assert(no_jumps(t)) by {
                assert forall|i: int| 0 <= i < t.len() - 1 implies #[trigger] t[i + 1] <= t[i] + 1 by {
                    lemma_drop_last_neighbours(s, i);
                    assert(s[i + 1] <= s[i] + 1);
                }
            }
            let k = s.len() - 2;
            assert(s[k + 1] <= s[k] + 1);
        }
        if spec_sequence_gaps(s).len() == 0 {
            assert forall|i: int| 0 <= i < s.len() - 1 implies #[trigger] s[i + 1] <= s[i] + 1 by {
                if i < s.len() - 2 {
                    lemma_drop_last_neighbours(s, i);
                    assert(t[i + 1] <= t[i] + 1);
                }
            }
        }
    }
}

/// No regression is reported exactly when the timestamps never decrease.
pub proof fn law_no_regressions_iff_sorted(t: Seq<u64>)
    ensures
        spec_timestamp_regressions(t).len() == 0 <==> non_decreasing(t),
    decreases t.len(),
{
    if t.len() >= 2 {
        let u = t.drop_last();
        law_no_regressions_iff_sorted(u);
        let n = t.len() - 1;
        if spec_timestamp_regressions(t).len() == 0 {
            assert(t[n] >= t[n - 1]);
            assert forall|i: int, j: int| 0 <= i <= j < t.len() implies #[trigger] t[i] <= #[trigger] t[j] by {
                if j < n {
                    assert(u[i] <= u[j]);
                } else if i < n {
                    assert(u[i] <= u[n - 1]);
                }
            }
        }
        if non_decreasing(t) {
            assert(t[n - 1] <= t[n]);
            assert forall|i: int, j: int| 0 <= i <= j < u.len() implies #[trigger] u[i] <= #[trigger] u[j] by {
                assert(t[i] <= t[j]);
            }
        }
    }
}

/// The ONLINE state indicator is raised for exactly the state byte that
/// `parse_header` reads as `JournalState::Online`.
pub proof fn law_online_indicator_matches_header_state(b: u8)
    ensures
        (b == 1) <==> crate::binary::spec_state(b) == Some(crate::binary::JournalState::Online),
{
}

/// The indices `i >= 1` whose timestamp is below the one before it, in increasing order.
pub open spec fn drop_indices(t: Seq<u64>) -> Seq<int>
    decreases t.len(),
{
    if t.len() < 2 {
        Seq::empty()
    } else {
        let p = drop_indices(t.drop_last());
        let i = t.len() - 1;
        if t[i] < t[i - 1] {
            p.push(i)
        } else {
            p
        }
    }
}

/// The indices `i >= 1` with `s[i] > s[i - 1] + 1`, in increasing order.
pub open spec fn jump_indices(s: Seq<u64>) -> Seq<int>
    decreases s.len(),
{
    if s.len() < 2 {
        Seq::empty()
    } else {
        let p = jump_indices(s.drop_last());
        let i = s.len() - 1;
        if s[i] > s[i - 1] + 1 {
            p.push(i)
        } else {
            p
        }
    }
}

/// `drop_indices` holds every index `i >= 1` whose timestamp is strictly below the one
/// before it, no other, each once, in increasing order.
pub proof fn law_drop_indices(t: Seq<u64>)
    ensures
        forall|i: int|
            #[trigger] drop_indices(t).contains(i) <==> (1 <= i < t.len() && t[i] < t[i - 1]),
        forall|a: int, b: int|
            0 <= a < b < drop_indices(t).len() ==> #[trigger] drop_indices(t)[a]
                < #[trigger] drop_indices(t)[b],
        forall|a: int|
            0 <= a < drop_indices(t).len() ==> 1 <= #[trigger] drop_indices(t)[a] < t.len(),
    decreases t.len(),
{
    if t.len() >= 2 {
        let u = t.drop_last();
        law_drop_indices(u);
        let p = drop_indices(u);
        let d = drop_indices(t);
        let n = t.len() - 1;
        assert(!p.contains(n));
        assert forall|i: int| #[trigger] d.contains(i) <==> (1 <= i < t.len() && t[i] < t[i - 1]) by {
            if 1 <= i < n {
                assert(u[i] == t[i] && u[i - 1] == t[i - 1]);
            }
            if d.contains(i) {
                let x = choose|x: int| 0 <= x < d.len() && d[x] == i;
                if x < p.len() {
                    assert(p[x] == i);
                    assert(p.contains(i));
                }
            }
            if p.contains(i) {
                let x = choose|x: int| 0 <= x < p.len() && p[x] == i;
                assert(d[x] == i);
            }
            if i == n && t[n] < t[n - 1] {
                assert(d[p.len() as int] == n);
            }
        }
    }
}

/// `jump_indices` holds every index `i >= 1` with `s[i] > s[i - 1] + 1`, no other,
/// each once, in increasing order.
pub proof fn law_jump_indices(s: Seq<u64>)
    ensures
        forall|i: int|
            #[trigger] jump_indices(s).contains(i) <==> (1 <= i < s.len() && s[i] > s[i - 1] + 1),
        forall|a: int, b: int|
            0 <= a < b < jump_indices(s).len() ==> #[trigger] jump_indices(s)[a]
                < #[trigger] jump_indices(s)[b],
        forall|a: int|
            0 <= a < jump_indices(s).len() ==> 1 <= #[trigger] jump_indices(s)[a] < s.len(),
    decreases s.len(),
{
    if s.len() >= 2 {
        let u = s.drop_last();
        law_jump_indices(u);
        let p = jump_indices(u);
        let d = jump_indices(s);
        let n = s.len() - 1;
        assert(!p.contains(n));
        assert forall|i: int| #[trigger] d.contains(i) <==> (1 <= i < s.len() && s[i] > s[i - 1] + 1) by {
            if 1 <= i < n {
                assert(u[i] == s[i] && u[i - 1] == s[i - 1]);
            }
            if d.contains(i) {
                let x = choose|x: int| 0 <= x < d.len() && d[x] == i;
                if x < p.len() {
                    assert(p[x] == i);
                    assert(p.contains(i));
                }
            }
            if p.contains(i) {
                let x = choose|x: int| 0 <= x < p.len() && p[x] == i;
                assert(d[x] == i);
            }
            if i == n && s[n] > s[n - 1] + 1 {
                assert(d[p.len() as int] == n);
            }
        }
    }
}

/// Regression detection reports, in order, one indicator per index whose timestamp is
/// below the one before it, carrying that index and both timestamps.
pub proof fn law_regressions_at_drops(t: Seq<u64>)
    ensures
        spec_timestamp_regressions(t).len() == drop_indices(t).len(),
        forall|k: int|
            0 <= k < drop_indices(t).len() ==> #[trigger] spec_timestamp_regressions(t)[k]
                == regression_view(
                drop_indices(t)[k] as nat,
                t[drop_indices(t)[k] - 1],
                t[drop_indices(t)[k]],
            ),
    decreases t.len(),
{
    if t.len() >= 2 {
        let u = t.drop_last();
        law_regressions_at_drops(u);
        law_drop_indices(u);
        let p = drop_indices(u);
        let d = drop_indices(t);
        let g = spec_timestamp_regressions(t);
        let h = spec_timestamp_regressions(u);
        assert forall|k: int| 0 <= k < d.len() implies #[trigger] g[k] == regression_view(
            d[k] as nat,
            t[d[k] - 1],
            t[d[k]],
        ) by {
            if k < p.len() {
                assert(g[k] == h[k]);
                assert(d[k] == p[k]);
                assert(1 <= p[k] < u.len());
                assert(u[p[k]] == t[p[k]] && u[p[k] - 1] == t[p[k] - 1]);
            }
        }
    }
}

/// Gap detection reports, in order, one indicator per neighbouring pair `[A, B]` with
/// `B > A + 1`, carrying `A` and `B`.
pub proof fn law_gaps_at_jumps(s: Seq<u64>)
    ensures
        spec_sequence_gaps(s).len() == jump_indices(s).len(),
        forall|k: int|
            0 <= k < jump_indices(s).len() ==> #[trigger] spec_sequence_gaps(s)[k] == gap_view(
                s[jump_indices(s)[k] - 1],
                s[jump_indices(s)[k]],
            ),
    decreases s.len(),
{
    if s.len() >= 2 {
        let u = s.drop_last();
        law_gaps_at_jumps(u);
        law_jump_indices(u);
        let p = jump_indices(u);
        let d = jump_indices(s);
        let g = spec_sequence_gaps(s);
        let h = spec_sequence_gaps(u);
        assert forall|k: int| 0 <= k < d.len() implies #[trigger] g[k] == gap_view(
            s[d[k] - 1],
            s[d[k]],
        ) by {
            if k < p.len() {
                assert(g[k] == h[k]);
                assert(d[k] == p[k]);
                assert(1 <= p[k] < u.len());
                assert(u[p[k]] == s[p[k]] && u[p[k] - 1] == s[p[k] - 1]);
            }
        }
    }
}

} // verus!
