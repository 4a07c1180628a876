//! Histograms of demon energies, one per bond: how often each bond's demon
//! was seen holding each energy level (4 energy units per level).

use crate::lattice::lemma_site_row_col;
use vstd::prelude::*;

verus! {

/// Per bond, how many times its demon was seen at each energy level.
pub struct PerBondDemonHistogram {
    /// `n_bonds` rows of `max_levels` counts each, row after row.
    counts: Vec<u64>,
    n_bonds: usize,
    max_levels: usize,
}

/// The level of demon energy `e`: `e / 4` rounded towards zero, as a
/// `usize`, so that a level below zero wraps around to a huge one.
pub open spec fn demon_level(e: i32) -> int {
    let q = if e >= 0 {
        e / 4
    } else {
        -((-e) / 4)
    };
    if q >= 0 {
        q
    } else {
        q + usize::MAX + 1
    }
}

/// `counts` after recording energy `e` for bond `bond`: the count of that
/// bond's level goes up by one, when the bond and the level are in range.
pub open spec fn record_one(counts: Seq<u64>, n_bonds: int, max_levels: int, bond: int, e: i32) -> Seq<u64> {
    let k = demon_level(e);
    if 0 <= bond < n_bonds && k < max_levels {
        counts.update(bond * max_levels + k, (counts[bond * max_levels + k] + 1) as u64)
    } else {
        counts
    }
}

/// Recording energy `e` for bond `bond` finds room in the count it raises,
/// if it raises one.
pub open spec fn record_has_room(counts: Seq<u64>, n_bonds: int, max_levels: int, bond: int, e: i32) -> bool {
    let k = demon_level(e);
    0 <= bond < n_bonds && k < max_levels ==> counts[bond * max_levels + k] + 1 <= u64::MAX
}

/// Law: recording two energies gives the same counts in either order.
pub proof fn lemma_record_commutes(
    counts: Seq<u64>,
    n_bonds: int,
    max_levels: int,
    a: int,
    e1: i32,
    b: int,
    e2: i32,
)
    requires
        n_bonds >= 0,
        max_levels >= 0,
        counts.len() == n_bonds * max_levels,
    ensures
        record_one(record_one(counts, n_bonds, max_levels, a, e1), n_bonds, max_levels, b, e2)
            == record_one(record_one(counts, n_bonds, max_levels, b, e2), n_bonds, max_levels, a, e1),
{
    let k1 = demon_level(e1);
    let k2 = demon_level(e2);
    if 0 <= a < n_bonds && k1 < max_levels {
        assert(0 <= a * max_levels + k1 < n_bonds * max_levels) by (nonlinear_arith)
            requires
                0 <= a < n_bonds,
                0 <= k1 < max_levels,
        ;
    }
    if 0 <= b < n_bonds && k2 < max_levels {
        assert(0 <= b * max_levels + k2 < n_bonds * max_levels) by (nonlinear_arith)
            requires
                0 <= b < n_bonds,
                0 <= k2 < max_levels,
        ;
    }
    let x = record_one(record_one(counts, n_bonds, max_levels, a, e1), n_bonds, max_levels, b, e2);
    let y = record_one(record_one(counts, n_bonds, max_levels, b, e2), n_bonds, max_levels, a, e1);
    assert(x =~= y);
}

/// `counts` after recording the events, in order.
pub open spec fn record_events(
    counts: Seq<u64>,
    n_bonds: int,
    max_levels: int,
    events: Seq<(int, i32)>,
) -> Seq<u64>
    decreases events.len(),
{
    if events.len() == 0 {
        counts
    } else {
        let last = events.last();
        record_one(
            record_events(counts, n_bonds, max_levels, events.drop_last()),
            n_bonds,
            max_levels,
            last.0,
            last.1,
        )
    }
}

/// Each of `events`, recorded in turn from `counts`, finds room in the
/// count it raises.
pub open spec fn events_have_room(counts: Seq<u64>, n_bonds: int, max_levels: int, events: Seq<(int, i32)>) -> bool
    decreases events.len(),
{
    if events.len() == 0 {
        true
    } else {
        &&& events_have_room(counts, n_bonds, max_levels, events.drop_last())
        &&& record_has_room(
            record_events(counts, n_bonds, max_levels, events.drop_last()),
            n_bonds,
            max_levels,
            events.last().0,
            events.last().1,
        )
    }
}

/// When all of `events` find room, event `n` finds room after the ones
/// before it.
proof fn lemma_events_room_prefix(counts: Seq<u64>, n_bonds: int, max_levels: int, events: Seq<(int, i32)>, n: int)
    requires
        events_have_room(counts, n_bonds, max_levels, events),
        0 <= n < events.len(),
    ensures
        record_has_room(
            record_events(counts, n_bonds, max_levels, events.take(n)),
            n_bonds,
            max_levels,
            events[n].0,
            events[n].1,
        ),
    decreases events.len(),
{
    if n == events.len() - 1 {
        assert(events.take(n) =~= events.drop_last());
    } else {
        lemma_events_room_prefix(counts, n_bonds, max_levels, events.drop_last(), n);
        assert(events.drop_last().take(n) =~= events.take(n));
    }
}

/// The events of `record_all`: the horizontal demons of the real bonds, row
/// by row and skipping the last column, each under its site's index; then the
/// vertical demons, each under its site's index plus `l * l`.
pub open spec fn bond_demon_events(h: Seq<i32>, v: Seq<i32>, l: int) -> Seq<(int, i32)> {
    Seq::new(
        (l * (l - 1)) as nat,
        |r: int|
            {
                let idx = (r / (l - 1)) * l + r % (l - 1);
                (idx, h[idx])
            },
    ) + Seq::new((l * l) as nat, |i: int| (l * l + i, v[i]))
}

/// The events of `record_creutz`: demon `i` under bond `i`, its energy
/// counted four times.
pub open spec fn creutz_demon_events(demons: Seq<i32>) -> Seq<(int, i32)> {
    Seq::new(demons.len(), |i: int| (i, (4 * demons[i]) as i32))
}

/// The pairs (count at level `i - 1`, count at level `i`) of the bonds
/// `0 .. b` that saw level `i - 1` at least ten times and level `i` at least
/// once, in bond order.
pub open spec fn level_pairs_upto(counts: Seq<u64>, max_levels: int, i: int, b: int) -> Seq<(u64, u64)>
    decreases b,
{
    if b <= 0 {
        Seq::empty()
    } else {
        let prev = level_pairs_upto(counts, max_levels, i, b - 1);
        let row = (b - 1) * max_levels;
        let count_prev = counts[row + i - 1];
        let count_curr = counts[row + i];
        if count_prev >= 10 && count_curr >= 1 {
            prev.push((count_prev, count_curr))
        } else {
            prev
        }
    }
}

impl PerBondDemonHistogram {
    /// The counts, `levels()` of them per bond, bond after bond.
    pub closed spec fn count_view(&self) -> Seq<u64> {
        self.counts@
    }

    /// The number of bonds.
    pub closed spec fn bonds(&self) -> int {
        self.n_bonds as int
    }

    /// The number of energy levels counted per bond.
    pub closed spec fn levels(&self) -> int {
        self.max_levels as int
    }

    /// One row of counts per bond.
    pub open spec fn wf(&self) -> bool {
        self.count_view().len() == self.bonds() * self.levels()
    }

    /// Every count is 0.
    pub open spec fn holds_nothing(&self) -> bool {
        forall|c: int| 0 <= c < self.count_view().len() ==> #[trigger] self.count_view()[c] == 0
    }

    /// An empty histogram of `n_bonds` bonds with `max_levels` levels each.
    pub fn new(n_bonds: usize, max_levels: usize) -> (h: Self)
        requires
            n_bonds * max_levels <= usize::MAX,
        ensures
            h.wf(),
            h.bonds() == n_bonds,
            h.levels() == max_levels,
            h.count_view() == Seq::new((n_bonds * max_levels) as nat, |c: int| 0u64),
    {
        let counts = vec![0; n_bonds * max_levels];
        assert(counts@ =~= Seq::new((n_bonds * max_levels) as nat, |c: int| 0u64));
        Self { counts, n_bonds, max_levels }
    }

    /// The number of bonds.
    pub fn n_bonds(&self) -> (n: usize)
        ensures
            n == self.bonds(),
    {
        self.n_bonds
    }

    /// The number of energy levels counted per bond.
    pub fn max_levels(&self) -> (n: usize)
        ensures
            n == self.levels(),
    {
        self.max_levels
    }

    /// Counts energy `demon_energy` for bond `bond_idx`, unless the bond or the
    /// energy's level is out of range.
    pub fn record(&mut self, bond_idx: usize, demon_energy: i32)
        requires
            old(self).wf(),
            record_has_room(
                old(self).count_view(),
                old(self).bonds(),
                old(self).levels(),
                bond_idx as int,
                demon_energy,
            ),
        ensures
            final(self).wf(),
            final(self).bonds() == old(self).bonds(),
            final(self).levels() == old(self).levels(),
            final(self).count_view() == record_one(
                old(self).count_view(),
                old(self).bonds(),
                old(self).levels(),
                bond_idx as int,
                demon_energy,
            ),
            forall|c: int|
                0 <= c < old(self).count_view().len() ==> old(self).count_view()[c]
                    <= #[trigger] final(self).count_view()[c] <= old(self).count_view()[c] + 1,
    {
        let q: i32 = demon_energy / 4;
        let k: usize = if q >= 0 {
            q as usize
        } else {
            usize::MAX - ((-(q + 1)) as usize)
        };
        proof {
            assert(k == demon_level(demon_energy));
        }
        let n = self.counts.len();
        if bond_idx < self.n_bonds && k < self.max_levels {
            proof {
                assert(bond_idx * self.max_levels + k < self.n_bonds * self.max_levels) by (nonlinear_arith)
                    requires
                        bond_idx < self.n_bonds,
                        k < self.max_levels,
                ;
            }
            let c = bond_idx * self.max_levels + k;
            let v = self.counts[c] + 1;
            self.counts.set(c, v);
        }
    }

    /// Records every horizontal demon of a real bond (row by row, skipping
    /// the last column), each under its site's index, then every vertical
    /// demon under its site's index plus `l * l`; with `l == 0` nothing.
    pub fn record_all(&mut self, demons_h: &[i32], demons_v: &[i32], l: usize)
        requires
            old(self).wf(),
            l * l + l * l <= usize::MAX,
            demons_h@.len() + 1 >= l * l,
            demons_v@.len() >= l * l,
            events_have_room(
                old(self).count_view(),
                old(self).bonds(),
                old(self).levels(),
                bond_demon_events(demons_h@, demons_v@, l as int),
            ),
        ensures
            final(self).wf(),
            final(self).bonds() == old(self).bonds(),
            final(self).levels() == old(self).levels(),
            final(self).count_view() == record_events(
                old(self).count_view(),
                old(self).bonds(),
                old(self).levels(),
                bond_demon_events(demons_h@, demons_v@, l as int),
            ),
    {
        let ghost c0 = self.count_view();
        let ghost nb = self.bonds();
        let ghost ml = self.levels();
        let ghost events = bond_demon_events(demons_h@, demons_v@, l as int);
        let ghost total = l * (l - 1) + l * l;
        proof {
            assert(l * (l - 1) == l * l - l) by (nonlinear_arith);
        }
        let mut y: usize = 0;
        while y < l
            invariant
                self.wf(),
                self.bonds() == nb,
                self.levels() == ml,
                0 <= y <= l,
                l * l <= usize::MAX,
                demons_h@.len() + 1 >= l * l,
                events == bond_demon_events(demons_h@, demons_v@, l as int),
                total == l * (l - 1) + l * l,
                events_have_room(c0, nb, ml, events),
                self.count_view() == record_events(c0, nb, ml, events.take(y * (l - 1))),
            decreases l - y,
        {
            proof {
                assert((y + 1) * (l - 1) == y * (l - 1) + (l - 1)) by (nonlinear_arith);
                assert(y * l + l <= l * l) by (nonlinear_arith)
                    requires
                        y < l,
                ;
                assert(y * (l - 1) + (l - 1) <= l * (l - 1)) by (nonlinear_arith)
                    requires
                        y < l,
                ;
            }
            let mut x: usize = 0;
            while x + 1 < l
                invariant
                    self.wf(),
                    self.bonds() == nb,
                    self.levels() == ml,
                    l >= 1,
                    0 <= y < l,
                    0 <= x <= l - 1,
                    y * l + l <= l * l,
                    y * (l - 1) + (l - 1) <= l * (l - 1),
                    l * l <= usize::MAX,
                    demons_h@.len() + 1 >= l * l,
                    events == bond_demon_events(demons_h@, demons_v@, l as int),
                    total == l * (l - 1) + l * l,
                    events_have_room(c0, nb, ml, events),
                    self.count_view() == record_events(c0, nb, ml, events.take(y * (l - 1) + x)),
                decreases l - x,
            {
                let idx = y * l + x;
                proof {
                    let r = y * (l - 1) + x;
                    lemma_site_row_col(l - 1, y as int, x as int);
                    assert(events[r as int] == (idx as int, demons_h@[idx as int]));
                    assert(events.take(r + 1).drop_last() =~= events.take(r as int));
                    lemma_events_room_prefix(c0, nb, ml, events, r as int);
                }
                self.record(idx, demons_h[idx]);
                x = x + 1;
            }
            y = y + 1;
        }
        let offset = l * l;
        let mut i: usize = 0;
        while i < offset
            invariant
                self.wf(),
                self.bonds() == nb,
                self.levels() == ml,
                l * l + l * l <= usize::MAX,
                offset == l * l,
                0 <= i <= offset,
                demons_v@.len() >= l * l,
                events == bond_demon_events(demons_h@, demons_v@, l as int),
                total == l * (l - 1) + l * l,
                events_have_room(c0, nb, ml, events),
                self.count_view() == record_events(c0, nb, ml, events.take(l * (l - 1) + i)),
            decreases offset - i,
        {
            proof {
                let r = l * (l - 1) + i;
                assert(events[r as int] == ((offset + i) as int, demons_v@[i as int]));
                assert(events.take(r + 1).drop_last() =~= events.take(r as int));
                lemma_events_room_prefix(c0, nb, ml, events, r as int);
            }
            self.record(offset + i, demons_v[i]);
            i = i + 1;
        }
        assert(events.take(total) =~= events);
    }

    /// Records every demon `i` of a Creutz dynamics under bond `i`, its
    /// energy counted four times.
    pub fn record_creutz(&mut self, demons: &[i32])
        requires
            old(self).wf(),
            forall|i: int| 0 <= i < demons@.len() ==> -0x2000_0000 <= #[trigger] demons@[i] <= 0x1fff_ffff,
            events_have_room(
                old(self).count_view(),
                old(self).bonds(),
                old(self).levels(),
                creutz_demon_events(demons@),
            ),
        ensures
            final(self).wf(),
            final(self).bonds() == old(self).bonds(),
            final(self).levels() == old(self).levels(),
            final(self).count_view() == record_events(
                old(self).count_view(),
                old(self).bonds(),
                old(self).levels(),
                creutz_demon_events(demons@),
            ),
    {
        let ghost c0 = self.count_view();
        let ghost nb = self.bonds();
        let ghost ml = self.levels();
        let ghost events = creutz_demon_events(demons@);
        let mut i: usize = 0;
        while i < demons.len()
            invariant
                self.wf(),
                self.bonds() == nb,
                self.levels() == ml,
                0 <= i <= demons@.len(),
                events == creutz_demon_events(demons@),
                forall|j: int| 0 <= j < demons@.len() ==> -0x2000_0000 <= #[trigger] demons@[j] <= 0x1fff_ffff,
                events_have_room(c0, nb, ml, events),
                self.count_view() == record_events(c0, nb, ml, events.take(i as int)),
            decreases demons@.len() - i,
        {
            let e = demons[i];
            proof {
                assert(events.take(i + 1).drop_last() =~= events.take(i as int));
                lemma_events_room_prefix(c0, nb, ml, events, i as int);
            }
            self.record(i, 4 * e);
            i = i + 1;
        }
        assert(events.take(demons@.len() as int) =~= events);
    }

    /// The pairs (count at level `i - 1`, count at level `i`) of the bonds
    /// that saw level `i - 1` at least ten times and level `i` at least once,
    /// in bond order: the ratios from which the inverse temperature of level
    /// `i` is estimated.
    pub fn level_pairs(&self, i: usize) -> (pairs: Vec<(u64, u64)>)
        requires
            self.wf(),
            1 <= i < self.levels(),
        ensures
            pairs@ == level_pairs_upto(self.count_view(), self.levels(), i as int, self.bonds()),
    {
        let mut pairs: Vec<(u64, u64)> = Vec::new();
        let n = self.counts.len();
        let mut b: usize = 0;
        while b < self.n_bonds
            invariant
                self.wf(),
                n == self.counts@.len(),
                1 <= i < self.max_levels,
                0 <= b <= self.n_bonds,
                pairs@ == level_pairs_upto(self.count_view(), self.levels(), i as int, b as int),
            decreases self.n_bonds - b,
        {
            proof {
                assert(b * self.max_levels + self.max_levels <= self.n_bonds * self.max_levels) by (nonlinear_arith)
                    requires
                        b < self.n_bonds,
                ;
            }
            let row = b * self.max_levels;
            let count_prev = self.counts[row + i - 1];
            let count_curr = self.counts[row + i];
            if count_prev >= 10 && count_curr >= 1 {
                pairs.push((count_prev, count_curr));
            }
            b = b + 1;
        }
        pairs
    }

    /// Sets every count back to 0.
    pub fn reset(&mut self)
        requires
            old(self).wf(),
        ensures
            final(self).wf(),
            final(self).bonds() == old(self).bonds(),
            final(self).levels() == old(self).levels(),
            final(self).count_view() == Seq::new(old(self).count_view().len(), |c: int| 0u64),
            final(self).holds_nothing(),
    {
        let mut c: usize = 0;
        while c < self.counts.len()
            invariant
                self.counts@.len() == old(self).counts@.len(),
                self.n_bonds == old(self).n_bonds,
                self.max_levels == old(self).max_levels,
                0 <= c <= self.counts@.len(),
                forall|j: int| 0 <= j < c ==> #[trigger] self.counts@[j] == 0,
            decreases self.counts@.len() - c,
        {
            self.counts.set(c, 0);
            c = c + 1;
        }
        assert(self.counts@ =~= Seq::new(old(self).count_view().len(), |c: int| 0u64));
    }

    /// Whether every count is 0.
    pub fn is_empty(&self) -> (empty: bool)
        ensures
            empty == self.holds_nothing(),
    {
        let mut c: usize = 0;
        while c < self.counts.len()
            invariant
                0 <= c <= self.counts@.len(),
                forall|j: int| 0 <= j < c ==> #[trigger] self.counts@[j] == 0,
            decreases self.counts@.len() - c,
        {
            if self.counts[c] != 0 {
                assert(self.count_view()[c as int] != 0);
                return false;
            }
            c = c + 1;
        }
        true
    }
}

} // verus!
