use vstd::prelude::*;

verus! {

/// Number of elements of `s` that are at most `t`.
pub open spec fn count_le(s: Seq<i32>, t: int) -> nat
    decreases s.len(),
{
    if s.len() == 0 {
        0
    } else {
        count_le(s.drop_last(), t) + if s.last() <= t { 1nat } else { 0nat }
    }
}

pub open spec fn sorted(s: Seq<i32>) -> bool {
    forall|i: int, j: int| 0 <= i <= j < s.len() ==> s[i] <= s[j]
}

/// Start and end ticks pair up: the i-th smallest end is never before the i-th smallest start.
pub open spec fn paired(starts: Seq<i32>, ends: Seq<i32>) -> bool {
    &&& starts.len() == ends.len()
    &&& forall|i: int| 0 <= i < starts.len() ==> starts[i] <= ends[i]
}

/// Notes whose half-open interval `[start, end)` contains `t`.
pub open spec fn passed_at(starts: Seq<i32>, ends: Seq<i32>, t: int) -> int {
    count_le(starts, t) - count_le(ends, t)
}

/// The sealed note index of one pitch.
///
/// It keeps the start ticks and the end ticks of the pitch's notes, each in
/// ascending order, so that the number of notes sounding at a tick is the
/// difference of two binary searches.
pub struct CakeBlock {
    start_time: u32,
    end_time: u32,
    starts: Vec<i32>,
    ends: Vec<i32>,
    colors: Vec<i32>,
}

impl CakeBlock {
    pub closed spec fn start_time_view(&self) -> u32 {
        self.start_time
    }

    pub closed spec fn end_time_view(&self) -> u32 {
        self.end_time
    }

    pub closed spec fn starts_view(&self) -> Seq<i32> {
        self.starts@
    }

    pub closed spec fn ends_view(&self) -> Seq<i32> {
        self.ends@
    }

    pub closed spec fn colors_view(&self) -> Seq<i32> {
        self.colors@
    }

    pub open spec fn wf(&self) -> bool {
        &&& sorted(self.starts_view())
        &&& sorted(self.ends_view())
        &&& paired(self.starts_view(), self.ends_view())
        &&& self.colors_view().len() == self.starts_view().len()
    }

    /// Notes of this pitch that have started and not yet ended at tick `t`.
    pub open spec fn spec_passed_at(&self, t: int) -> int {
        passed_at(self.starts_view(), self.ends_view(), t)
    }

    /// Number of notes stored in the block.
    pub open spec fn spec_len(&self) -> nat {
        self.starts_view().len()
    }

    pub(crate) fn from_parts(
        start_time: u32,
        end_time: u32,
        starts: Vec<i32>,
        ends: Vec<i32>,
        colors: Vec<i32>,
    ) -> (r: Self)
        requires
            sorted(starts@),
            sorted(ends@),
            paired(starts@, ends@),
            colors@.len() == starts@.len(),
        ensures
            r.wf(),
            r.start_time_view() == start_time,
            r.end_time_view() == end_time,
            r.starts_view() == starts@,
            r.ends_view() == ends@,
            r.colors_view() == colors@,
    {
        CakeBlock { start_time, end_time, starts, ends, colors }
    }

    /// First tick that the block covers.
    pub fn start_time(&self) -> (r: u32)
        ensures
            r == self.start_time_view(),
    {
        self.start_time
    }

    /// Last tick that the block covers.
    pub fn end_time(&self) -> (r: u32)
        ensures
            r == self.end_time_view(),
    {
        self.end_time
    }

    /// Number of notes stored in the block; each is one start, one end
    /// and one color entry.
    pub fn len(&self) -> (r: usize)
        ensures
            r == self.spec_len(),
    {
        self.starts.len()
    }

    /// Start tick and color of the `i`-th note in order of start.
    pub fn note_start(&self, i: usize) -> (r: (i32, i32))
        requires
            self.wf(),
            i < self.starts_view().len(),
        ensures
            r.0 == self.starts_view()[i as int],
            r.1 == self.colors_view()[i as int],
    {
        (self.starts[i], self.colors[i])
    }

    /// Number of notes that have started and not yet ended at tick `time`.
    pub fn get_notes_passed_at(&self, time: i32) -> (r: u64)
        requires
            self.wf(),
        ensures
            r == self.spec_passed_at(time as int),
    {
        let s = count_le_sorted(&self.starts, time);
        let e = count_le_sorted(&self.ends, time);
        proof {
            lemma_paired_count(self.starts@, self.ends@, time as int);
        }
        (s - e) as u64
    }
}

/// Binary search: the number of elements of a sorted vector that are at most `t`.
pub fn count_le_sorted(v: &Vec<i32>, t: i32) -> (r: usize)
    requires
        sorted(v@),
    ensures
        r == count_le(v@, t as int),
{
    let mut lo: usize = 0;
    let mut hi: usize = v.len();
    while lo < hi
        invariant
            sorted(v@),
            lo <= hi <= v@.len(),
            forall|i: int| 0 <= i < lo ==> v@[i] <= t,
            forall|i: int| hi <= i < v@.len() ==> v@[i] > t,
        decreases hi - lo,
    {
        let mid = lo + (hi - lo) / 2;
        if v[mid] <= t {
            lo = mid + 1;
        } else {
            hi = mid;
        }
    }
    proof {
        lemma_count_le_split(v@, t as int, lo as int);
    }
    lo
}

/// Where every element before `k` is at most `t` and every one from `k` on is
/// above it, exactly `k` elements are at most `t`.
pub proof fn lemma_count_le_split(s: Seq<i32>, t: int, k: int)
    requires
        0 <= k <= s.len(),
        forall|i: int| 0 <= i < k ==> s[i] <= t,
        forall|i: int| k <= i < s.len() ==> s[i] > t,
    ensures
        count_le(s, t) == k,
    decreases s.len(),
{
    if s.len() > 0 {
        let d = s.drop_last();
        if s.last() <= t {
            lemma_count_le_split(d, t, k - if k == s.len() { 1int } else { 0int });
        } else {
            lemma_count_le_split(d, t, k);
        }
    }
}

/// Counting at a later tick never gives fewer elements.
pub proof fn lemma_count_le_monotone(s: Seq<i32>, t1: int, t2: int)
    requires
        t1 <= t2,
    ensures
        count_le(s, t1) <= count_le(s, t2),
    decreases s.len(),
{
    if s.len() > 0 {
        lemma_count_le_monotone(s.drop_last(), t1, t2);
    }
}

/// Where no element lies in `(t1, t2]`, the counts at `t1` and `t2` agree.
pub proof fn lemma_count_le_gap(s: Seq<i32>, t1: int, t2: int)
    requires
        t1 <= t2,
        forall|i: int| 0 <= i < s.len() ==> !(t1 < #[trigger] s[i] && s[i] <= t2),
    ensures
        count_le(s, t1) == count_le(s, t2),
    decreases s.len(),
{
    if s.len() > 0 {
        let d = s.drop_last();
        assert forall|i: int| 0 <= i < d.len() implies !(t1 < d[i] && d[i] <= t2) by {
            assert(d[i] == s[i]);
        }
        lemma_count_le_gap(d, t1, t2);
    }
}

/// Where every element is above `t`, none is counted.
pub proof fn lemma_count_le_none(s: Seq<i32>, t: int)
    requires
        forall|i: int| 0 <= i < s.len() ==> s[i] > t,
    ensures
        count_le(s, t) == 0,
{
    lemma_count_le_split(s, t, 0);
}

/// Paired ends never outnumber their starts at any tick.
pub proof fn lemma_paired_count(starts: Seq<i32>, ends: Seq<i32>, t: int)
    requires
        paired(starts, ends),
    ensures
        count_le(ends, t) <= count_le(starts, t),
        count_le(starts, t) <= starts.len(),
    decreases starts.len(),
{
    if starts.len() > 0 {
        let s = starts.drop_last();
        let e = ends.drop_last();
        assert forall|i: int| 0 <= i < s.len() implies s[i] <= e[i] by {
            assert(s[i] == starts[i]);
            assert(e[i] == ends[i]);
        }
        lemma_paired_count(s, e, t);
        assert(starts.last() <= ends.last());
    }
}

/// Between two ticks with no note ending in `(t1, t2]`, the number of sounding
/// notes does not decrease.
pub proof fn lemma_passed_monotone_without_ends(b: &CakeBlock, t1: int, t2: int)
    requires
        b.wf(),
        t1 <= t2,
        forall|i: int| 0 <= i < b.ends_view().len() ==> !(t1 < #[trigger] b.ends_view()[i] && b.ends_view()[i] <= t2),
    ensures
        b.spec_passed_at(t1) <= b.spec_passed_at(t2),
{
    lemma_count_le_monotone(b.starts_view(), t1, t2);
    lemma_count_le_gap(b.ends_view(), t1, t2);
}

/// Before the first note starts, no note is sounding.
pub proof fn lemma_passed_zero_before_first(b: &CakeBlock, t: int)
    requires
        b.wf(),
        forall|i: int| 0 <= i < b.starts_view().len() ==> b.starts_view()[i] > t,
    ensures
        b.spec_passed_at(t) == 0,
{
    lemma_count_le_none(b.starts_view(), t);
    lemma_paired_count(b.starts_view(), b.ends_view(), t);
}

/// The number of sounding notes is never negative nor above the note count.
pub proof fn lemma_passed_bounds(b: &CakeBlock, t: int)
    requires
        b.wf(),
    ensures
        0 <= b.spec_passed_at(t) <= b.starts_view().len(),
{
    lemma_paired_count(b.starts_view(), b.ends_view(), t);
}

} // verus!
