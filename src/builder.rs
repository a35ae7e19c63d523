use vstd::prelude::*;

use crate::blocks::{paired, sorted, CakeBlock};

verus! {

/// Number of pitches that the index keeps apart.
pub const KEY_COUNT: usize = 128;

/// A note marker as the builder receives it: the tick it happens at, the
/// channel and track it belongs to (`channel + 16 * track`), and its color.
#[derive(Clone, Copy, Debug, PartialEq, Eq, Structural)]
pub enum NoteEvent {
    On { time: i32, channel_track: i32, color: i32 },
    Off { time: i32, channel_track: i32, color: i32 },
}

impl NoteEvent {
    pub open spec fn time_of(&self) -> i32 {
        match self {
            NoteEvent::On { time, .. } => *time,
            NoteEvent::Off { time, .. } => *time,
        }
    }

    /// The tick the marker happens at.
    pub fn time(&self) -> (r: i32)
        ensures
            r == self.time_of(),
    {
        match self {
            NoteEvent::On { time, .. } => *time,
            NoteEvent::Off { time, .. } => *time,
        }
    }
}

/// The growing note index of one pitch.
///
/// Start ticks are kept in arrival order, end ticks likewise, and `open`
/// holds the channel-track of every note that has started and not ended.
pub struct PitchBuilder {
    starts: Vec<i32>,
    ends: Vec<i32>,
    colors: Vec<i32>,
    open: Vec<i32>,
    last_time: i32,
}

impl PitchBuilder {
    pub closed spec fn starts_view(&self) -> Seq<i32> {
        self.starts@
    }

    pub closed spec fn ends_view(&self) -> Seq<i32> {
        self.ends@
    }

    pub closed spec fn colors_view(&self) -> Seq<i32> {
        self.colors@
    }

    pub closed spec fn open_view(&self) -> Seq<i32> {
        self.open@
    }

    pub closed spec fn last_time_view(&self) -> i32 {
        self.last_time
    }

    pub open spec fn wf(&self) -> bool {
        let s = self.starts_view();
        let e = self.ends_view();
        &&& sorted(s)
        &&& sorted(e)
        &&& e.len() + self.open_view().len() == s.len()
        &&& self.colors_view().len() == s.len()
        &&& forall|i: int| 0 <= i < e.len() ==> s[i] <= e[i]
        &&& forall|i: int| 0 <= i < s.len() ==> s[i] <= self.last_time_view()
        &&& forall|i: int| 0 <= i < e.len() ==> e[i] <= self.last_time_view()
    }

    /// How one event changes the builder.
    pub open spec fn follows(&self, prev: &Self, event: NoteEvent) -> bool {
        match event {
            NoteEvent::On { time, channel_track, color } => {
                &&& self.starts_view() == prev.starts_view().push(time)
                &&& self.colors_view() == prev.colors_view().push(color)
                &&& self.ends_view() == prev.ends_view()
                &&& self.open_view() == prev.open_view().push(channel_track)
            },
            NoteEvent::Off { time, channel_track, .. } => {
                &&& self.starts_view() == prev.starts_view()
                &&& self.colors_view() == prev.colors_view()
                &&& match prev.open_view().index_of_first(channel_track) {
                    Some(k) => {
                        &&& self.ends_view() == prev.ends_view().push(time)
                        &&& self.open_view() == prev.open_view().remove(k)
                    },
                    None => {
                        &&& self.ends_view() == prev.ends_view()
                        &&& self.open_view() == prev.open_view()
                    },
                }
            },
        }
    }

    pub fn new() -> (r: Self)
        ensures
            r.wf(),
            r.starts_view().len() == 0,
            r.ends_view().len() == 0,
            r.open_view().len() == 0,
            r.last_time_view() == i32::MIN,
    {
        PitchBuilder {
            starts: Vec::new(),
            ends: Vec::new(),
            colors: Vec::new(),
            open: Vec::new(),
            last_time: i32::MIN,
        }
    }

    /// Position of the oldest open note of `channel_track`, or the number of
    /// open notes where there is none.
    fn find_open(&self, channel_track: i32) -> (k: usize)
        ensures
            k <= self.open_view().len(),
            forall|j: int| 0 <= j < k ==> self.open_view()[j] != channel_track,
            k < self.open_view().len() ==> self.open_view()[k as int] == channel_track,
    {
        let mut k: usize = 0;
        while k < self.open.len()
            invariant
                k <= self.open@.len(),
                forall|j: int| 0 <= j < k ==> self.open@[j] != channel_track,
            decreases self.open@.len() - k,
        {
            if self.open[k] == channel_track {
                return k;
            }
            k = k + 1;
        }
        k
    }

    /// Records a note start, or ends the oldest open note of the same
    /// channel-track. An end with no such open note is ignored.
    pub fn push_event(&mut self, event: NoteEvent)
        requires
            old(self).wf(),
            event.time_of() >= old(self).last_time_view(),
        ensures
            final(self).wf(),
            final(self).last_time_view() == event.time_of(),
            final(self).follows(old(self), event),
    {
        match event {
            NoteEvent::On { time, channel_track, color } => {
                self.starts.push(time);
                self.colors.push(color);
                self.open.push(channel_track);
                self.last_time = time;
            },
            NoteEvent::Off { time, channel_track, .. } => {
                let k = self.find_open(channel_track);
                proof {
                    self.open@.index_of_first_ensures(channel_track);
                    if let Some(f) = self.open@.index_of_first(channel_track) {
                        if (k as int) < f {
                            assert(self.open@[k as int] != channel_track);
                        }
                        if f < (k as int) {
                            assert(self.open@[f] != channel_track);
                        }
                        assert(f == k);
                    }
                }
                if k < self.open.len() {
                    self.open.remove(k);
                    self.ends.push(time);
                    assert(self.open@ == old(self).open@.remove(k as int));
                } else {
                    assert(!self.open@.contains(channel_track));
                    assert(self.open@.index_of_first(channel_track) is None);
                }
                self.last_time = time;
            },
        }
    }

    /// Ends every open note at `final_time` and freezes the index.
    pub fn seal(self, final_time: i32) -> (r: CakeBlock)
        requires
            self.wf(),
            final_time >= self.last_time_view(),
            final_time >= 0,
        ensures
            r.wf(),
            r.start_time_view() == 0,
            r.end_time_view() == final_time as u32,
            r.starts_view() == self.starts_view(),
            r.colors_view() == self.colors_view(),
            r.ends_view() == self.ends_view() + Seq::new(
                self.open_view().len(),
                |j: int| final_time,
            ),
    {
        let PitchBuilder { starts, mut ends, colors, open, last_time } = self;
        let n = ends.len();
        let mut i: usize = 0;
        while i < open.len()
            invariant
                ends@.len() == n + i,
                i <= open@.len(),
                n + open@.len() == starts@.len(),
                sorted(ends@),
                ends@.subrange(0, n as int) == self.ends@,
                forall|j: int| 0 <= j < ends@.len() ==> ends@[j] <= final_time,
                forall|j: int| n <= j < ends@.len() ==> ends@[j] == final_time,
                forall|j: int| 0 <= j < ends@.len() ==> starts@[j] <= ends@[j],
                forall|j: int| 0 <= j < starts@.len() ==> starts@[j] <= final_time,
                n == self.ends@.len(),
                starts@ == self.starts@,
            decreases open@.len() - i,
        {
            ends.push(final_time);
            i = i + 1;
        }
        proof {
            assert(paired(starts@, ends@));
            assert(ends@ =~= self.ends@ + Seq::new(open@.len(), |j: int| final_time));
        }
        CakeBlock::from_parts(0, final_time as u32, starts, ends, colors)
    }
}

/// Sum of a sequence of counts.
pub open spec fn sum_nat(s: Seq<nat>) -> nat
    decreases s.len(),
{
    if s.len() == 0 {
        0
    } else {
        sum_nat(s.drop_last()) + s.last()
    }
}

/// Replacing one count changes the sum by the difference.
pub proof fn lemma_sum_nat_update(s: Seq<nat>, k: int, x: nat)
    requires
        0 <= k < s.len(),
    ensures
        sum_nat(s.update(k, x)) + s[k] == sum_nat(s) + x,
    decreases s.len(),
{
    let u = s.update(k, x);
    if k < s.len() - 1 {
        assert(u.drop_last() =~= s.drop_last().update(k, x));
        lemma_sum_nat_update(s.drop_last(), k, x);
    } else {
        assert(u.drop_last() =~= s.drop_last());
    }
}

/// Notes started in each builder.
pub open spec fn started_counts(trees: Seq<PitchBuilder>) -> Seq<nat> {
    Seq::new(trees.len(), |p: int| trees[p].starts_view().len())
}

/// One growing note index per pitch, all fed in time order.
pub struct ThreadedTreeSerializers {
    trees: Vec<PitchBuilder>,
    last_time: i32,
}

impl ThreadedTreeSerializers {
    pub closed spec fn view(&self) -> Seq<PitchBuilder> {
        self.trees@
    }

    pub closed spec fn last_time_view(&self) -> i32 {
        self.last_time
    }

    pub open spec fn wf(&self) -> bool {
        &&& self@.len() == KEY_COUNT
        &&& forall|p: int| 0 <= p < KEY_COUNT ==> #[trigger] self@[p].wf()
        &&& forall|p: int| 0 <= p < KEY_COUNT ==> #[trigger] self@[p].last_time_view() <= self.last_time_view()
    }

    /// Notes started so far, over all pitches.
    pub open spec fn started(&self) -> nat {
        sum_nat(started_counts(self@))
    }

    pub fn new() -> (r: Self)
        ensures
            r.wf(),
            r.last_time_view() == i32::MIN,
            forall|p: int| 0 <= p < KEY_COUNT ==> #[trigger] r@[p].starts_view().len() == 0,
            forall|p: int| 0 <= p < KEY_COUNT ==> #[trigger] r@[p].ends_view().len() == 0,
            forall|p: int| 0 <= p < KEY_COUNT ==> #[trigger] r@[p].colors_view().len() == 0,
            forall|p: int| 0 <= p < KEY_COUNT ==> #[trigger] r@[p].open_view().len() == 0,
            r.started() == 0,
    {
        let mut trees: Vec<PitchBuilder> = Vec::new();
        let mut p: usize = 0;
        while p < KEY_COUNT
            invariant
                p <= KEY_COUNT,
                trees@.len() == p,
                forall|q: int| 0 <= q < p ==> #[trigger] trees@[q].wf(),
                forall|q: int| 0 <= q < p ==> #[trigger] trees@[q].last_time_view() == i32::MIN,
                forall|q: int| 0 <= q < p ==> #[trigger] trees@[q].starts_view().len() == 0,
                forall|q: int| 0 <= q < p ==> #[trigger] trees@[q].ends_view().len() == 0,
                forall|q: int| 0 <= q < p ==> #[trigger] trees@[q].colors_view().len() == 0,
                forall|q: int| 0 <= q < p ==> #[trigger] trees@[q].open_view().len() == 0,
                sum_nat(started_counts(trees@)) == 0,
            decreases KEY_COUNT - p,
        {
            let ghost before = trees@;
            trees.push(PitchBuilder::new());
            proof {
                assert(started_counts(trees@).drop_last() =~= started_counts(before));
            }
            p = p + 1;
        }
        ThreadedTreeSerializers { trees, last_time: i32::MIN }
    }

    /// Hands `event` to the builder of pitch `key`.
    pub fn push_event(&mut self, key: usize, event: NoteEvent)
        requires
            old(self).wf(),
            key < KEY_COUNT,
            event.time_of() >= old(self).last_time_view(),
        ensures
            final(self).wf(),
            final(self).last_time_view() == event.time_of(),
            final(self)@[key as int].follows(&old(self)@[key as int], event),
            forall|p: int|
                0 <= p < KEY_COUNT && p != key ==> #[trigger] final(self)@[p] == old(self)@[p],
            final(self).started() == old(self).started() + if event is On { 1nat } else { 0nat },
    {
        let time = event.time();
        let mut tree = self.trees.remove(key);
        tree.push_event(event);
        self.trees.insert(key, tree);
        self.last_time = time;
        proof {
            assert(self@ =~= old(self)@.update(key as int, tree));
            assert(started_counts(self@) =~= started_counts(old(self)@).update(
                key as int,
                tree.starts_view().len(),
            ));
            lemma_sum_nat_update(started_counts(old(self)@), key as int, tree.starts_view().len());
        }
    }

    /// Ends every open note at `final_time` and freezes each pitch's index.
    pub fn seal(self, final_time: i32) -> (r: Vec<CakeBlock>)
        requires
            self.wf(),
            final_time >= self.last_time_view(),
            final_time >= 0,
        ensures
            r@.len() == KEY_COUNT,
            forall|p: int| 0 <= p < KEY_COUNT ==> (#[trigger] r@[p]).wf(),
            forall|p: int|
                0 <= p < KEY_COUNT ==> (#[trigger] r@[p]).starts_view() == self@[p].starts_view(),
            forall|p: int| 0 <= p < KEY_COUNT ==> (#[trigger] r@[p]).end_time_view() == final_time as u32,
            forall|p: int| 0 <= p < KEY_COUNT ==> (#[trigger] r@[p]).start_time_view() == 0,
            forall|p: int|
                0 <= p < KEY_COUNT ==> (#[trigger] r@[p]).colors_view() == self@[p].colors_view(),
            forall|p: int|
                0 <= p < KEY_COUNT ==> (#[trigger] r@[p]).ends_view() == self@[p].ends_view()
                    + Seq::new(self@[p].open_view().len(), |j: int| final_time),
    {
        let ThreadedTreeSerializers { mut trees, last_time } = self;
        let mut blocks: Vec<CakeBlock> = Vec::new();
        let ghost all = trees@;
        while trees.len() > 0
            invariant
                blocks@.len() + trees@.len() == KEY_COUNT,
                trees@ == all.subrange(blocks@.len() as int, KEY_COUNT as int),
                all == self@,
                self.wf(),
                final_time >= self.last_time_view(),
                final_time >= 0,
                forall|q: int| 0 <= q < blocks@.len() ==> (#[trigger] blocks@[q]).wf(),
                forall|q: int|
                    0 <= q < blocks@.len() ==> (#[trigger] blocks@[q]).starts_view()
                        == all[q].starts_view(),
                forall|q: int|
                    0 <= q < blocks@.len() ==> (#[trigger] blocks@[q]).end_time_view()
                        == final_time as u32,
                forall|q: int| 0 <= q < blocks@.len() ==> (#[trigger] blocks@[q]).start_time_view() == 0,
                forall|q: int|
                    0 <= q < blocks@.len() ==> (#[trigger] blocks@[q]).colors_view()
                        == all[q].colors_view(),
                forall|q: int|
                    0 <= q < blocks@.len() ==> (#[trigger] blocks@[q]).ends_view()
                        == all[q].ends_view() + Seq::new(all[q].open_view().len(), |j: int| final_time),
            decreases trees@.len(),
        {
            let ghost done = blocks@.len() as int;
            let tree = trees.remove(0);
            proof {
                assert(tree == all[done]);
            }
            blocks.push(tree.seal(final_time));
            proof {
                assert(trees@ =~= all.subrange(done + 1, KEY_COUNT as int));
            }
        }
        blocks
    }
}

} // verus!
