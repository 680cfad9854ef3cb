//! Peak picking on the normalized square difference function (NSDF).
//!
//! The NSDF is handed over as integer keys that order the samples as the
//! samples themselves are ordered and share their sign; every decision made
//! here depends on that order and on signs alone.
use vstd::prelude::*;

verus! {

/// The state of the left-to-right key-maximum scan.
pub struct ScanState {
    /// A positive-going zero crossing was seen and no negative-going one since.
    pub detecting: bool,
    /// The index of the last positive-going crossing.
    pub start: int,
    /// The index of the largest sample since the last positive-going crossing.
    pub max_index: int,
    /// The lag indices committed so far.
    pub found: Seq<int>,
}

/// One step of the scan, applied to the sample at index `i >= 1`.
pub open spec fn scan_step(s: Seq<i32>, st: ScanState, i: int) -> ScanState {
    let prev = s[i - 1];
    let curr = s[i];
    let crossed = if prev <= 0 && curr > 0 {
        ScanState { detecting: true, start: i, max_index: i, found: st.found }
    } else if prev >= 0 && curr < 0 {
        ScanState {
            detecting: false,
            start: st.start,
            max_index: st.max_index,
            found: if st.detecting { st.found.push(st.max_index) } else { st.found },
        }
    } else {
        st
    };
    if !crossed.detecting {
        crossed
    } else if i == s.len() - 1 {
        ScanState {
            found: crossed.found.push(if curr > s[crossed.max_index] { i } else { crossed.max_index }),
            ..crossed
        }
    } else if curr > s[crossed.max_index] {
        ScanState { max_index: i, ..crossed }
    } else {
        crossed
    }
}

/// The state of the scan before it looks at index `i` (`i >= 1`).
pub open spec fn scan_upto(s: Seq<i32>, i: int) -> ScanState
    decreases i,
{
    if i <= 1 {
        ScanState { detecting: false, start: 0, max_index: 0, found: Seq::empty() }
    } else {
        scan_step(s, scan_upto(s, i - 1), i - 1)
    }
}

/// The lag indices of all key maxima of `s`, in increasing order: for each run
/// that starts at a positive-going zero crossing (a sample at most 0 followed
/// by a positive one) and ends at a negative-going one (a sample at least 0
/// followed by a negative one) or at the last sample, the index of its first
/// largest sample. A new positive-going crossing inside a run starts a new run
/// and drops the old one; [`lemma_key_maxima_are_run_maxima`] states what each
/// key maximum is in these terms.
pub open spec fn key_maxima(s: Seq<i32>) -> Seq<int> {
    if s.len() == 0 {
        Seq::empty()
    } else {
        scan_upto(s, s.len() as int).found
    }
}

/// Finds the key maxima of `nsdf`, writes the first of them, up to the
/// capacity `lag_indices.len()`, to the front of `lag_indices`, and returns
/// how many it wrote. Key maxima beyond the capacity are dropped.
pub fn pick_key_maxima(nsdf: &[i32], lag_indices: &mut Vec<usize>) -> (count: usize)
    ensures
        final(lag_indices)@.len() == old(lag_indices)@.len(),
        count as int == if key_maxima(nsdf@).len() < old(lag_indices)@.len() {
            key_maxima(nsdf@).len() as int
        } else {
            old(lag_indices)@.len() as int
        },
        forall|j: int| 0 <= j < count ==> final(lag_indices)@[j] as int == key_maxima(nsdf@)[j],
        forall|j: int| count <= j < final(lag_indices)@.len() ==> final(lag_indices)@[j] == old(lag_indices)@[j],
{
    let n = nsdf.len();
    let capacity = lag_indices.len();
    if n == 0 {
        return 0;
    }
    let mut count: usize = 0;
    let mut detecting = false;
    let mut maximum_value: i32 = 0;
    let mut maximum_index: usize = 0;
    let mut prev = nsdf[0];
    let mut i: usize = 1;
    while i < n
        invariant
            n == nsdf@.len(),
            1 <= i <= n,
            capacity == lag_indices@.len(),
            capacity == old(lag_indices)@.len(),
            prev == nsdf@[i - 1],
            detecting == scan_upto(nsdf@, i as int).detecting,
            maximum_index as int == scan_upto(nsdf@, i as int).max_index,
            detecting ==> maximum_index < i && maximum_value == nsdf@[maximum_index as int],
            count as int == if scan_upto(nsdf@, i as int).found.len() < capacity {
                scan_upto(nsdf@, i as int).found.len() as int
            } else {
                capacity as int
            },
            forall|j: int| 0 <= j < count ==> lag_indices@[j] as int == scan_upto(nsdf@, i as int).found[j],
            forall|j: int| count <= j < capacity ==> lag_indices@[j] == old(lag_indices)@[j],
        decreases n - i,
    {
        let ghost before = scan_upto(nsdf@, i as int);
        let ghost after = scan_step(nsdf@, before, i as int);
        assert(scan_upto(nsdf@, i as int + 1) == after);
        let is_last_lag = i == n - 1;
        let curr = nsdf[i];
        if prev <= 0 && curr > 0 {
            detecting = true;
            maximum_value = curr;
            maximum_index = i;
        } else if prev >= 0 && curr < 0 {
            if detecting && count < capacity {
                lag_indices.set(count, maximum_index);
                count = count + 1;
            }
            detecting = false;
        }
        if detecting {
            if is_last_lag {
                if count < capacity {
                    let last_max_index = if curr > maximum_value { i } else { maximum_index };
                    lag_indices.set(count, last_max_index);
                    count = count + 1;
                }
            } else if curr > maximum_value {
                maximum_value = curr;
                maximum_index = i;
            }
        }
        prev = curr;
        i = i + 1;
    }
    count
}

/// A silent NSDF, all of whose samples are zero, has no key maxima.
pub proof fn lemma_silence_has_no_key_maxima(s: Seq<i32>)
    requires
        forall|i: int| 0 <= i < s.len() ==> s[i] == 0,
    ensures
        key_maxima(s).len() == 0,
{
    if s.len() > 0 {
        lemma_silent_scan(s, s.len() as int);
    }
}

proof fn lemma_silent_scan(s: Seq<i32>, i: int)
    requires
        1 <= i <= s.len(),
        forall|j: int| 0 <= j < s.len() ==> s[j] == 0,
    ensures
        !scan_upto(s, i).detecting,
        scan_upto(s, i).found.len() == 0,
    decreases i,
{
    if i > 1 {
        lemma_silent_scan(s, i - 1);
    }
}

/// What holds of the scan state before index `i`: the committed lag indices
/// are increasing, inside `[1, i)`, and on positive samples; a maximum being
/// tracked lies on a positive sample after the last committed one.
pub open spec fn scan_invariant(s: Seq<i32>, i: int, st: ScanState) -> bool {
    &&& forall|j: int| 0 <= j < st.found.len() ==> 1 <= #[trigger] st.found[j] < i && s[st.found[j]] > 0
    &&& forall|j1: int, j2: int| 0 <= j1 < j2 < st.found.len() ==> st.found[j1] < st.found[j2]
    &&& st.detecting && i < s.len() ==> {
        &&& 1 <= st.max_index < i
        &&& s[st.max_index] > 0
        &&& st.found.len() > 0 ==> st.found.last() < st.max_index
    }
}

proof fn lemma_scan_invariant(s: Seq<i32>, i: int)
    requires
        1 <= i <= s.len(),
    ensures
        scan_invariant(s, i, scan_upto(s, i)),
    decreases i,
{
    if i > 1 {
        lemma_scan_invariant(s, i - 1);
        let st = scan_upto(s, i - 1);
        let next = scan_upto(s, i);
        assert(next == scan_step(s, st, i - 1));
        assert forall|j1: int, j2: int| 0 <= j1 < j2 < next.found.len() implies next.found[j1] < next.found[j2] by {
            if j2 >= st.found.len() && j1 < st.found.len() {
                assert(st.found[j1] <= st.found.last());
            }
        }
    }
}

/// Every key maximum lies on a positive NSDF sample inside the NSDF (never at
/// lag 0), and the key maxima come in increasing lag order.
pub proof fn lemma_key_maxima_well_formed(s: Seq<i32>)
    ensures
        forall|j: int| 0 <= j < key_maxima(s).len()
            ==> 1 <= #[trigger] key_maxima(s)[j] < s.len() && s[key_maxima(s)[j]] > 0,
        forall|j1: int, j2: int| 0 <= j1 < j2 < key_maxima(s).len() ==> key_maxima(s)[j1] < key_maxima(s)[j2],
{
    if s.len() > 0 {
        lemma_scan_invariant(s, s.len() as int);
    }
}

/// `s` rises through zero at `t`: a sample at most 0 followed by a positive one.
pub open spec fn rises_at(s: Seq<i32>, t: int) -> bool {
    1 <= t < s.len() && s[t - 1] <= 0 && s[t] > 0
}

/// `s` falls through zero at `t`: a sample at least 0 followed by a negative one.
pub open spec fn falls_at(s: Seq<i32>, t: int) -> bool {
    1 <= t < s.len() && s[t - 1] >= 0 && s[t] < 0
}

/// `m` is the first largest sample of the run that rises at `a`, as far as
/// `m`: no crossing lies between them and every sample from `a` on before `m`
/// is smaller.
pub open spec fn starts_run_of(s: Seq<i32>, a: int, m: int) -> bool {
    &&& 1 <= a <= m < s.len()
    &&& rises_at(s, a)
    &&& forall|t: int| a < t <= m ==> !#[trigger] rises_at(s, t) && !falls_at(s, t)
    &&& forall|t: int| a <= t < m ==> #[trigger] s[t] < s[m]
}

/// Some run rises through zero at or before `m` and has `m` as its first
/// largest sample so far.
pub open spec fn has_run_start(s: Seq<i32>, m: int) -> bool {
    exists|a: int| starts_run_of(s, a, m)
}

/// `s` falls through zero somewhere strictly between `m` and `end`.
pub open spec fn falls_between(s: Seq<i32>, m: int, end: int) -> bool {
    exists|e: int| m < e < end && falls_at(s, e)
}

/// No later sample exceeds `s[m]` before the run of `m` falls through zero.
pub open spec fn largest_until_fall(s: Seq<i32>, m: int) -> bool {
    forall|t: int| m < t < s.len() && #[trigger] s[t] > s[m] ==> falls_between(s, m, t + 1)
}

/// The key maximum is the first largest sample of its run: the run rises at
/// some `a`, and from there on no sample before it is as large and no
/// sample after it is larger until the run falls through zero.
pub open spec fn is_run_maximum(s: Seq<i32>, m: int) -> bool {
    has_run_start(s, m) && largest_until_fall(s, m)
}

spec fn run_invariant(s: Seq<i32>, i: int, st: ScanState) -> bool {
    &&& forall|j: int| 0 <= j < st.found.len() ==> has_run_start(s, #[trigger] st.found[j])
    &&& forall|j: int, t: int| 0 <= j < st.found.len() && st.found[j] < t < i && #[trigger] s[t] > s[#[trigger] st.found[j]]
        ==> falls_between(s, st.found[j], t + 1)
    &&& forall|j: int| 0 <= j < st.found.len() ==> i == s.len() || falls_between(s, #[trigger] st.found[j], i)
    &&& st.detecting && i < s.len() ==> {
        &&& 1 <= st.start <= st.max_index < i
        &&& rises_at(s, st.start)
        &&& forall|t: int| st.start < t < i ==> !#[trigger] rises_at(s, t) && !falls_at(s, t)
        &&& forall|t: int| st.start <= t < st.max_index ==> #[trigger] s[t] < s[st.max_index]
        &&& forall|t: int| st.max_index < t < i ==> #[trigger] s[t] <= s[st.max_index]
    }
}

proof fn lemma_run_invariant(s: Seq<i32>, i: int)
    requires
        1 <= i <= s.len(),
    ensures
        run_invariant(s, i, scan_upto(s, i)),
    decreases i,
{
    if i > 1 {
        let k = i - 1;
        lemma_run_invariant(s, k);
        let st = scan_upto(s, k);
        let next = scan_upto(s, i);
        assert(next == scan_step(s, st, k));
        let rising = s[k - 1] <= 0 && s[k] > 0;
        let falling = !rising && s[k - 1] >= 0 && s[k] < 0;
        assert(rising == rises_at(s, k));
        assert(falling == falls_at(s, k));
        // the committed maximum, if any, and what it satisfies
        if falling && st.detecting {
            let m = st.max_index;
            assert(starts_run_of(s, st.start, m));
            assert(falls_at(s, k) && m < k);
        }
        if st.detecting && !rising && !falling && k == s.len() - 1 {
            let m = if s[k] > s[st.max_index] { k } else { st.max_index };
            if m == k {
                assert forall|t: int| st.start <= t < m implies #[trigger] s[t] < s[m] by {
                    if t < st.max_index {
                        assert(s[t] < s[st.max_index]);
                    }
                }
                assert forall|t: int| st.start < t <= m implies !#[trigger] rises_at(s, t) && !falls_at(s, t) by {
                    if t < k {
                        assert(!rises_at(s, t) && !falls_at(s, t));
                    }
                }
                assert(starts_run_of(s, st.start, m));
            } else {
                assert(starts_run_of(s, st.start, m));
            }
        }
        if st.detecting && !rising && !falling && k < s.len() - 1 && s[k] > s[st.max_index] {
            assert forall|t: int| st.start <= t < k implies #[trigger] s[t] < s[k] by {
                if t < st.max_index {
                    assert(s[t] < s[st.max_index]);
                }
            }
        }
        if rising && k == s.len() - 1 {
            assert(starts_run_of(s, k, k));
        }
        assert forall|j: int| 0 <= j < next.found.len() implies has_run_start(s, #[trigger] next.found[j]) by {
            if j < st.found.len() {
                assert(next.found[j] == st.found[j]);
                assert(has_run_start(s, st.found[j]));
            } else {
                assert(starts_run_of(s, next.start, next.found[j]));
            }
        }
        assert forall|j: int| 0 <= j < next.found.len() implies i == s.len()
            || falls_between(s, #[trigger] next.found[j], i) by {
            if j < st.found.len() {
                assert(next.found[j] == st.found[j]);
                if k != s.len() {
                    assert(falls_between(s, st.found[j], k));
                    let e = choose|e: int| st.found[j] < e < k && falls_at(s, e);
                    assert(next.found[j] < e < i && falls_at(s, e));
                }
            } else if falling {
                assert(next.found[j] < k < i && falls_at(s, k));
            }
        }
        assert forall|j: int, t: int| 0 <= j < next.found.len() && next.found[j] < t < i && #[trigger] s[t] > s[#[trigger] next.found[j]]
            implies falls_between(s, next.found[j], t + 1) by {
            if j < st.found.len() {
                assert(next.found[j] == st.found[j]);
                if t == k {
                    assert(falls_between(s, st.found[j], k));
                    let e = choose|e: int| st.found[j] < e < k && falls_at(s, e);
                    assert(next.found[j] < e < t + 1 && falls_at(s, e));
                }
            } else if falling {
                assert(next.found[j] < k < t + 1 && falls_at(s, k));
            } else if t < k {
                assert(s[t] <= s[st.max_index]);
            }
        }
        if next.detecting && i < s.len() {
            if rising {
                assert(next.start == k && next.max_index == k);
            } else {
                assert(st.detecting && next.start == st.start);
                assert forall|t: int| next.start < t < i implies !#[trigger] rises_at(s, t) && !falls_at(s, t) by {
                    if t < k {
                        assert(!rises_at(s, t) && !falls_at(s, t));
                    }
                }
                if s[k] > s[st.max_index] {
                    assert(next.max_index == k);
                } else {
                    assert(next.max_index == st.max_index);
                    assert forall|t: int| next.max_index < t < i implies #[trigger] s[t] <= s[next.max_index] by {
                        if t < k {
                            assert(s[t] <= s[st.max_index]);
                        }
                    }
                }
            }
        }
        assert(run_invariant(s, i, next));
    } else {
        assert(scan_upto(s, i).found =~= Seq::<int>::empty());
    }
}

/// Every key maximum is the first largest sample of its run: the run rises
/// through zero at some `a` and has no crossing up to the key maximum, every
/// sample from `a` on before it is smaller, and no later sample is larger
/// until the run falls through zero.
pub proof fn lemma_key_maxima_are_run_maxima(s: Seq<i32>)
    ensures
        forall|j: int| 0 <= j < key_maxima(s).len() ==> is_run_maximum(s, #[trigger] key_maxima(s)[j]),
{
    if s.len() > 0 {
        lemma_run_invariant(s, s.len() as int);
        let km = key_maxima(s);
        assert(km == scan_upto(s, s.len() as int).found);
        assert forall|j: int| 0 <= j < km.len() implies is_run_maximum(s, #[trigger] km[j]) by {
            assert(has_run_start(s, km[j]));
            assert forall|t: int| km[j] < t < s.len() && #[trigger] s[t] > s[km[j]]
                implies falls_between(s, km[j], t + 1) by {
            }
        }
    }
}

/// The index of the first largest of `values`, or `None` when it is empty.
pub fn largest_key_max_index(values: &[i32]) -> (r: Option<usize>)
    ensures
        values@.len() == 0 <==> r is None,
        r matches Some(k) ==> k < values@.len()
            && (forall|j: int| 0 <= j < values@.len() ==> values@[j] <= values@[k as int])
            && (forall|j: int| 0 <= j < k ==> values@[j] < values@[k as int]),
{
    if values.len() == 0 {
        return None;
    }
    let mut best: usize = 0;
    let mut i: usize = 1;
    while i < values.len()
        invariant
            1 <= i <= values@.len(),
            best < i,
            forall|j: int| 0 <= j < i ==> values@[j] <= values@[best as int],
            forall|j: int| 0 <= j < best ==> values@[j] < values@[best as int],
        decreases values@.len() - i,
    {
        if values[i] > values[best] {
            best = i;
        }
        i = i + 1;
    }
    Some(best)
}

/// The index of the first of `values` that is at least `threshold`, or `None`
/// when there is none.
pub fn first_at_or_above(values: &[i32], threshold: i32) -> (r: Option<usize>)
    ensures
        r is None <==> (forall|j: int| 0 <= j < values@.len() ==> values@[j] < threshold),
        r matches Some(k) ==> k < values@.len() && values@[k as int] >= threshold
            && (forall|j: int| 0 <= j < k ==> values@[j] < threshold),
{
    let mut i: usize = 0;
    while i < values.len()
        invariant
            i <= values@.len(),
            forall|j: int| 0 <= j < i ==> values@[j] < threshold,
        decreases values@.len() - i,
    {
        if values[i] >= threshold {
            return Some(i);
        }
        i = i + 1;
    }
    None
}

/// The key maxima after `selected` that are candidates for the double period:
/// those before the first one that lies on the last lag `last_lag`, which marks
/// the end of the scan rather than a true maximum.
pub open spec fn is_double_period_candidate(lag_indices: Seq<usize>, selected: int, last_lag: usize, j: int) -> bool {
    &&& selected < j < lag_indices.len()
    &&& forall|m: int| selected < m <= j ==> lag_indices[m] != last_lag
}

/// Among the key maxima after `selected` that are candidates for the double
/// period, returns the index of the first one with the smallest `distances`
/// entry (its distance to twice the selected lag), or `None` when there is no
/// candidate.
pub fn closest_to_double_period(
    lag_indices: &[usize],
    distances: &[i32],
    selected: usize,
    last_lag: usize,
) -> (r: Option<usize>)
    requires
        lag_indices@.len() == distances@.len(),
    ensures
        r is None <==> !is_double_period_candidate(lag_indices@, selected as int, last_lag, selected + 1),
        r matches Some(k) ==> is_double_period_candidate(lag_indices@, selected as int, last_lag, k as int)
            && (forall|j: int| is_double_period_candidate(lag_indices@, selected as int, last_lag, j)
                ==> distances@[k as int] <= distances@[j])
            && (forall|j: int| selected < j < k ==> distances@[j] > distances@[k as int]),
{
    let n = lag_indices.len();
    if selected >= n || selected + 1 >= n || lag_indices[selected + 1] == last_lag {
        return None;
    }
    let start = selected + 1;
    let mut best: usize = start;
    let mut i: usize = start + 1;
    while i < n
        invariant
            n == lag_indices@.len(),
            n == distances@.len(),
            start == selected + 1,
            start < i <= n,
            start <= best < i,
            forall|m: int| start <= m < i ==> lag_indices@[m] != last_lag,
            forall|j: int| start <= j < i ==> distances@[best as int] <= distances@[j],
            forall|j: int| start <= j < best ==> distances@[j] > distances@[best as int],
        decreases n - i,
    {
        if lag_indices[i] == last_lag {
            proof {
                assert forall|j: int| is_double_period_candidate(lag_indices@, selected as int, last_lag, j)
                    implies distances@[best as int] <= distances@[j] by {
                    if j >= i {
                        assert(lag_indices@[i as int] != last_lag);
                    }
                }
            }
            return Some(best);
        }
        if distances[i] < distances[best] {
            best = i;
        }
        i = i + 1;
    }
    Some(best)
}

/// The indices of the left and right neighbours of `lag_index` used for
/// parabolic interpolation, clamped to the NSDF of length `len`.
pub fn interpolation_neighbours(lag_index: usize, len: usize) -> (r: (usize, usize))
    requires
        lag_index < len,
    ensures
        r.0 == if lag_index == 0 { 0 } else { lag_index - 1 },
        r.1 == if lag_index + 1 < len { lag_index + 1 } else { len - 1 },
{
    let left = if lag_index == 0 { 0 } else { lag_index - 1 };
    let right = if lag_index + 1 < len { lag_index + 1 } else { len - 1 };
    (left, right)
}

} // verus!
