//! Equivalence of the two strategies: after any sequence of ticks, the
//! incremental strategy leaves every bucket with the same contents (as an
//! unordered collection) as a full rebuild from the final snapshot.

use crate::grid::{
    cell_of, grid_init, in_bounds, lemma_cell_index_in_range, lemma_cell_of_congruent,
    remove_model, valid_config, GridModel, Position,
};
use crate::incremental::{tracker_valid, update_model, update_stale, TrackerModel};
use crate::rebuild::{lemma_rebuild_buckets, rebuild_model, snapshot_bucket};
use vstd::multiset::Multiset;
use vstd::prelude::*;

verus! {

broadcast use vstd::multiset::group_multiset_axioms, vstd::seq_lib::group_to_multiset_ensures;

/// The identifiers of the trackers currently occupying cell `c`, as an
/// unordered collection: buckets are unordered, and the two strategies fill
/// them in different orders.
pub open spec fn occupants(ts: Seq<TrackerModel>, c: int) -> Multiset<u64>
    decreases ts.len(),
{
    if ts.len() == 0 {
        Multiset::empty()
    } else {
        let rest = occupants(ts.drop_last(), c);
        if ts.last().cell == Some(c) {
            rest.insert(ts.last().id)
        } else {
            rest
        }
    }
}

/// How many copies of identifier `x` one tracker contributes to cell `c`:
/// one when it occupies the cell under that identifier, none otherwise.
pub open spec fn occupancy(t: TrackerModel, c: int, x: u64) -> int {
    if t.cell == Some(c) && t.id == x {
        1
    } else {
        0
    }
}

/// Every tracker's stored cell names an existing bucket.
pub open spec fn trackers_valid(ts: Seq<TrackerModel>, m: GridModel) -> bool {
    forall|i: int| 0 <= i < ts.len() ==> tracker_valid(#[trigger] ts[i], m)
}

/// The running invariant of the incremental strategy: the grid is well
/// formed, stored cells are valid, and every bucket holds, as a multiset,
/// exactly the identifiers of the trackers that occupy its cell.
pub open spec fn coherent(m: GridModel, ts: Seq<TrackerModel>) -> bool {
    &&& m.wf()
    &&& trackers_valid(ts, m)
    &&& forall|c: int|
        0 <= c < m.buckets.len() ==> (#[trigger] m.buckets[c]).to_multiset() == occupants(ts, c)
}

/// A tracker that occupies cell `c` contributes its identifier to that
/// cell's occupants.
pub proof fn lemma_occupants_member(ts: Seq<TrackerModel>, i: int, c: int)
    requires
        0 <= i < ts.len(),
        ts[i].cell == Some(c),
    ensures
        occupants(ts, c).count(ts[i].id) >= 1,
    decreases ts.len(),
{
    if i == ts.len() - 1 {
    } else {
        assert(ts.drop_last()[i] == ts[i]);
        lemma_occupants_member(ts.drop_last(), i, c);
    }
}

/// Replacing one tracker changes each cell's occupant counts by exactly the
/// old tracker's contribution out and the new tracker's contribution in.
pub proof fn lemma_occupants_update(ts: Seq<TrackerModel>, i: int, t2: TrackerModel, c: int)
    requires
        0 <= i < ts.len(),
    ensures
        forall|x: u64| #[trigger]
            occupants(ts.update(i, t2), c).count(x) == occupants(ts, c).count(x) - occupancy(
                ts[i],
                c,
                x,
            ) + occupancy(t2, c, x),
    decreases ts.len(),
{
    let upd = ts.update(i, t2);
    if i == ts.len() - 1 {
        assert(upd.drop_last() =~= ts.drop_last());
        assert(upd.last() == t2);
        assert forall|x: u64| #[trigger]
            occupants(upd, c).count(x) == occupants(ts, c).count(x) - occupancy(ts[i], c, x)
                + occupancy(t2, c, x) by {
            let rest = occupants(ts.drop_last(), c);
            assert(occupants(ts, c) == if ts.last().cell == Some(c) {
                rest.insert(ts.last().id)
            } else {
                rest
            });
            assert(occupants(upd, c) == if t2.cell == Some(c) {
                rest.insert(t2.id)
            } else {
                rest
            });
            assert(ts.last() == ts[i]);
        }
    } else {
        assert(upd.drop_last() =~= ts.drop_last().update(i, t2));
        assert(ts.drop_last()[i] == ts[i]);
        lemma_occupants_update(ts.drop_last(), i, t2, c);
        assert(upd.last() == ts.last());
        assert forall|x: u64| #[trigger]
            occupants(upd, c).count(x) == occupants(ts, c).count(x) - occupancy(ts[i], c, x)
                + occupancy(t2, c, x) by {
            let rest_old = occupants(ts.drop_last(), c);
            let rest_new = occupants(ts.drop_last().update(i, t2), c);
            assert(rest_new.count(x) == rest_old.count(x) - occupancy(ts[i], c, x) + occupancy(
                t2,
                c,
                x,
            ));
            assert(occupants(ts, c) == if ts.last().cell == Some(c) {
                rest_old.insert(ts.last().id)
            } else {
                rest_old
            });
            assert(occupants(upd, c) == if ts.last().cell == Some(c) {
                rest_new.insert(ts.last().id)
            } else {
                rest_new
            });
        }
    }
}

/// One incremental update preserves coherence: the updated bucket contents
/// still match the updated trackers' occupancy, the configuration is kept,
/// and the tracker ends on the cell of its new position.
pub proof fn lemma_coherent_update(m: GridModel, ts: Seq<TrackerModel>, i: int, p: Position)
    requires
        coherent(m, ts),
        0 <= i < ts.len(),
    ensures
        ({
            let (m2, t2) = update_model(m, ts[i], p);
            &&& coherent(m2, ts.update(i, t2))
            &&& m2.extent == m.extent
            &&& m2.cell_size == m.cell_size
            &&& m2.columns == m.columns
            &&& m2.buckets.len() == m.buckets.len()
            &&& ts.update(i, t2).len() == ts.len()
            &&& t2.id == ts[i].id
            &&& t2.cell == cell_of(m, p)
            &&& !update_stale(m, ts[i], p)
        }),
{
    let t = ts[i];
    let nc = cell_of(m, p);
    let (m2, t2) = update_model(m, t, p);
    if in_bounds(m, p) {
        lemma_cell_index_in_range(m, p);
    }
    if t.cell == nc {
        assert(ts.update(i, t2) =~= ts);
    } else {
        let m1 = match t.cell {
            Some(oc) => remove_model(m, t.id, oc),
            None => m,
        };
        if t.cell is Some {
            let oc = t.cell.unwrap();
            assert(tracker_valid(ts[i], m));
            lemma_occupants_member(ts, i, oc);
            assert(m.buckets[oc].to_multiset().count(t.id) >= 1);
            assert(m.buckets[oc].contains(t.id));
            m.buckets[oc].index_of_first_ensures(t.id);
            let k = m.buckets[oc].index_of_first(t.id).unwrap();
            assert(m.buckets[oc].remove(k).to_multiset() == m.buckets[oc].to_multiset().remove(
                t.id,
            ));
            assert(m1.buckets == m.buckets.update(oc, m.buckets[oc].remove(k)));
        }
        assert(m1.buckets.len() == m.buckets.len());
        assert forall|c: int| 0 <= c < m2.buckets.len() implies (#[trigger] m2.buckets[c])
            .to_multiset() == occupants(ts.update(i, t2), c) by {
            lemma_occupants_update(ts, i, t2, c);
            assert forall|x: u64|
                m2.buckets[c].to_multiset().count(x) == occupants(ts.update(i, t2), c).count(
                    x,
                ) by {
                assert(occupants(ts.update(i, t2), c).count(x) == occupants(ts, c).count(x)
                    - occupancy(ts[i], c, x) + occupancy(t2, c, x));
                assert(m.buckets[c].to_multiset() == occupants(ts, c));
                if t.cell is Some {
                    let oc = t.cell.unwrap();
                    if c == oc {
                        assert(m1.buckets[c].to_multiset() == m.buckets[c].to_multiset().remove(
                            t.id,
                        ));
                    } else {
                        assert(m1.buckets[c] == m.buckets[c]);
                    }
                }
                if nc is Some {
                    let c1 = nc.unwrap();
                    assert(m2.buckets == m1.buckets.update(c1, m1.buckets[c1].push(t.id)));
                    if c == c1 {
                        assert(m2.buckets[c].to_multiset() == m1.buckets[c].to_multiset().insert(
                            t.id,
                        ));
                    } else {
                        assert(m2.buckets[c] == m1.buckets[c]);
                    }
                } else {
                    assert(m2.buckets[c] == m1.buckets[c]);
                }
            }
            assert(m2.buckets[c].to_multiset() =~= occupants(ts.update(i, t2), c));
        }
    }
}

/// Trackers that are all unplaced occupy no cell.
pub proof fn lemma_unplaced_occupants(ts: Seq<TrackerModel>, c: int)
    requires
        forall|i: int| 0 <= i < ts.len() ==> (#[trigger] ts[i]).cell is None,
    ensures
        occupants(ts, c) == Multiset::<u64>::empty(),
    decreases ts.len(),
{
    if ts.len() > 0 {
        assert(forall|i: int|
            0 <= i < ts.drop_last().len() ==> (#[trigger] ts.drop_last()[i]).cell is None);
        lemma_unplaced_occupants(ts.drop_last(), c);
    }
}

/// Whether all tracked identifiers are pairwise distinct: identifiers are
/// foreign keys, so an external registry normally guarantees this.
pub open spec fn distinct_ids(ts: Seq<TrackerModel>) -> bool {
    forall|i: int, j: int| 0 <= i < j < ts.len() ==> (#[trigger] ts[i]).id != (#[trigger] ts[j]).id
}

/// An identifier no tracker carries occupies no cell.
pub proof fn lemma_occupants_absent(ts: Seq<TrackerModel>, c: int, x: u64)
    requires
        forall|i: int| 0 <= i < ts.len() ==> (#[trigger] ts[i]).id != x,
    ensures
        occupants(ts, c).count(x) == 0,
    decreases ts.len(),
{
    if ts.len() > 0 {
        assert(forall|i: int|
            0 <= i < ts.drop_last().len() ==> (#[trigger] ts.drop_last()[i]).id != x);
        lemma_occupants_absent(ts.drop_last(), c, x);
    }
}

/// An identifier that occupies a cell belongs to some tracker stored on that
/// cell.
pub proof fn lemma_occupants_source(ts: Seq<TrackerModel>, c: int, x: u64)
    requires
        occupants(ts, c).count(x) >= 1,
    ensures
        exists|i: int|
            0 <= i < ts.len() && (#[trigger] ts[i]).id == x && ts[i].cell == Some(c),
    decreases ts.len(),
{
    if ts.len() > 0 {
        if ts.last().cell == Some(c) && ts.last().id == x {
            assert(ts[ts.len() - 1].id == x && ts[ts.len() - 1].cell == Some(c));
        } else {
            lemma_occupants_source(ts.drop_last(), c, x);
            let i = choose|i: int|
                0 <= i < ts.drop_last().len() && (#[trigger] ts.drop_last()[i]).id == x
                    && ts.drop_last()[i].cell == Some(c);
            assert(ts[i].id == x && ts[i].cell == Some(c));
        }
    }
}

/// With distinct identifiers, every identifier appears in each bucket at most
/// once and in at most one bucket at a time: the membership invariant of the
/// incremental strategy.
pub proof fn lemma_at_most_one_bucket(
    m: GridModel,
    ts: Seq<TrackerModel>,
    c1: int,
    c2: int,
    x: u64,
)
    requires
        coherent(m, ts),
        distinct_ids(ts),
        0 <= c1 < m.buckets.len(),
        0 <= c2 < m.buckets.len(),
    ensures
        m.buckets[c1].to_multiset().count(x) <= 1,
        c1 != c2 ==> !(m.buckets[c1].contains(x) && m.buckets[c2].contains(x)),
{
    lemma_occupants_count_bound(ts, c1, x);
    if c1 != c2 && m.buckets[c1].contains(x) && m.buckets[c2].contains(x) {
        assert(m.buckets[c1].to_multiset().count(x) >= 1);
        assert(m.buckets[c2].to_multiset().count(x) >= 1);
        lemma_occupants_source(ts, c1, x);
        lemma_occupants_source(ts, c2, x);
        let i1 = choose|i: int|
            0 <= i < ts.len() && (#[trigger] ts[i]).id == x && ts[i].cell == Some(c1);
        let i2 = choose|i: int|
            0 <= i < ts.len() && (#[trigger] ts[i]).id == x && ts[i].cell == Some(c2);
        assert(i1 != i2);
        assert(ts[i1].id != ts[i2].id || !distinct_ids(ts));
        assert(false);
    }
}

/// With distinct identifiers, no cell's occupants count any identifier more
/// than once.
pub proof fn lemma_occupants_count_bound(ts: Seq<TrackerModel>, c: int, x: u64)
    requires
        distinct_ids(ts),
    ensures
        occupants(ts, c).count(x) <= 1,
    decreases ts.len(),
{
    if ts.len() > 0 {
        let rest = ts.drop_last();
        assert(forall|i: int, j: int|
            0 <= i < j < rest.len() ==> (#[trigger] rest[i]).id != (#[trigger] rest[j]).id);
        if ts.last().cell == Some(c) && ts.last().id == x {
            assert(forall|i: int| 0 <= i < rest.len() ==> (#[trigger] rest[i]).id != x);
            lemma_occupants_absent(rest, c, x);
        } else {
            lemma_occupants_count_bound(rest, c, x);
        }
    }
}

/// A fresh grid with all trackers unplaced is coherent: this is the state in
/// which the incremental strategy starts.
pub proof fn lemma_fresh_grid_coherent(extent: int, cell_size: int, ts: Seq<TrackerModel>)
    requires
        valid_config(extent, cell_size),
        forall|i: int| 0 <= i < ts.len() ==> (#[trigger] ts[i]).cell is None,
    ensures
        coherent(grid_init(extent, cell_size), ts),
{
    let m = grid_init(extent, cell_size);
    assert forall|c: int| 0 <= c < m.buckets.len() implies (#[trigger] m.buckets[c]).to_multiset()
        == occupants(ts, c) by {
        lemma_unplaced_occupants(ts, c);
        assert(m.buckets[c] =~= Seq::<u64>::empty());
        assert(m.buckets[c].to_multiset().len() == 0);
        assert(m.buckets[c].to_multiset() =~= Multiset::<u64>::empty());
    }
}

/// One incremental tick, processing the first `k` entities in order: each is
/// updated against its position for the tick.
pub open spec fn tick_upto(
    m: GridModel,
    ts: Seq<TrackerModel>,
    ps: Seq<Position>,
    k: int,
) -> (GridModel, Seq<TrackerModel>)
    decreases k,
{
    if k <= 0 {
        (m, ts)
    } else {
        let prev = tick_upto(m, ts, ps, k - 1);
        let st = update_model(prev.0, prev.1[k - 1], ps[k - 1]);
        (st.0, prev.1.update(k - 1, st.1))
    }
}

/// One full incremental tick: every entity is updated once against its
/// position for the tick.
pub open spec fn tick_model(m: GridModel, ts: Seq<TrackerModel>, ps: Seq<Position>) -> (GridModel,
    Seq<TrackerModel>) {
    tick_upto(m, ts, ps, ts.len() as int)
}

/// Running a whole tick preserves coherence, and afterwards every processed
/// entity sits on the cell of its position for the tick.
pub proof fn lemma_tick_upto(m: GridModel, ts: Seq<TrackerModel>, ps: Seq<Position>, k: int)
    requires
        coherent(m, ts),
        ps.len() == ts.len(),
        0 <= k <= ts.len(),
    ensures
        ({
            let (mk, tsk) = tick_upto(m, ts, ps, k);
            &&& coherent(mk, tsk)
            &&& mk.extent == m.extent
            &&& mk.cell_size == m.cell_size
            &&& mk.columns == m.columns
            &&& mk.buckets.len() == m.buckets.len()
            &&& tsk.len() == ts.len()
            &&& forall|j: int|
                0 <= j < k ==> (#[trigger] tsk[j]).id == ts[j].id && tsk[j].cell == cell_of(
                    m,
                    ps[j],
                )
            &&& forall|j: int| k <= j < ts.len() ==> #[trigger] tsk[j] == ts[j]
        }),
    decreases k,
{
    if k > 0 {
        lemma_tick_upto(m, ts, ps, k - 1);
        let (mp, tsp) = tick_upto(m, ts, ps, k - 1);
        lemma_coherent_update(mp, tsp, k - 1, ps[k - 1]);
        lemma_cell_of_congruent(mp, m, ps[k - 1]);
    }
}

/// The incremental strategy over a whole sequence of ticks.
pub open spec fn run_model(
    m: GridModel,
    ts: Seq<TrackerModel>,
    ticks: Seq<Seq<Position>>,
) -> (GridModel, Seq<TrackerModel>)
    decreases ticks.len(),
{
    if ticks.len() == 0 {
        (m, ts)
    } else {
        let prev = run_model(m, ts, ticks.drop_last());
        tick_model(prev.0, prev.1, ticks.last())
    }
}

/// Running any number of ticks preserves coherence, and after the last tick
/// every entity sits on the cell of its final position.
pub proof fn lemma_run_coherent(m: GridModel, ts: Seq<TrackerModel>, ticks: Seq<Seq<Position>>)
    requires
        coherent(m, ts),
        ticks.len() > 0,
        forall|t: int| 0 <= t < ticks.len() ==> (#[trigger] ticks[t]).len() == ts.len(),
    ensures
        ({
            let (mf, tsf) = run_model(m, ts, ticks);
            &&& coherent(mf, tsf)
            &&& mf.extent == m.extent
            &&& mf.cell_size == m.cell_size
            &&& mf.columns == m.columns
            &&& mf.buckets.len() == m.buckets.len()
            &&& tsf.len() == ts.len()
            &&& forall|j: int|
                0 <= j < ts.len() ==> (#[trigger] tsf[j]).id == ts[j].id && tsf[j].cell == cell_of(
                    m,
                    ticks.last()[j],
                )
        }),
    decreases ticks.len(),
{
    let (mp, tsp) = run_model(m, ts, ticks.drop_last());
    if ticks.len() > 1 {
        assert(forall|t: int|
            0 <= t < ticks.drop_last().len() ==> (#[trigger] ticks.drop_last()[t]).len()
                == ts.len());
        lemma_run_coherent(m, ts, ticks.drop_last());
    }
    lemma_tick_upto(mp, tsp, ticks.last(), tsp.len() as int);
    let (mf, tsf) = tick_model(mp, tsp, ticks.last());
    assert forall|j: int| 0 <= j < ts.len() implies (#[trigger] tsf[j]).id == ts[j].id
        && tsf[j].cell == cell_of(m, ticks.last()[j]) by {
        lemma_cell_of_congruent(mp, m, ticks.last()[j]);
    }
}

/// The snapshot's bucket for a cell and the trackers' occupants agree, once
/// every tracker sits on the cell of its snapshot position.
pub proof fn lemma_snapshot_occupants(
    m: GridModel,
    tsf: Seq<TrackerModel>,
    snap: Seq<(u64, Position)>,
    c: int,
)
    requires
        snap.len() == tsf.len(),
        forall|j: int|
            0 <= j < tsf.len() ==> snap[j].0 == (#[trigger] tsf[j]).id && cell_of(m, snap[j].1)
                == tsf[j].cell,
    ensures
        snapshot_bucket(m, snap, c).to_multiset() == occupants(tsf, c),
    decreases tsf.len(),
{
    if tsf.len() > 0 {
        let tsr = tsf.drop_last();
        let snr = snap.drop_last();
        assert(forall|j: int|
            0 <= j < tsr.len() ==> snr[j].0 == (#[trigger] tsr[j]).id && cell_of(m, snr[j].1)
                == tsr[j].cell);
        lemma_snapshot_occupants(m, tsf.drop_last(), snap.drop_last(), c);
        assert(snap[tsf.len() - 1].0 == tsf.last().id && cell_of(m, snap.last().1)
            == tsf.last().cell);
    }
}

/// Incremental equivalence: for any sequence of entity positions over any
/// number of ticks, starting from any coherent state, the bucket contents the
/// incremental strategy produces equal, as unordered collections, those a
/// full rebuild from the final snapshot produces.
pub proof fn lemma_incremental_matches_rebuild(
    m: GridModel,
    ts: Seq<TrackerModel>,
    ticks: Seq<Seq<Position>>,
)
    requires
        coherent(m, ts),
        ticks.len() > 0,
        forall|t: int| 0 <= t < ticks.len() ==> (#[trigger] ticks[t]).len() == ts.len(),
    ensures
        ({
            let (mf, tsf) = run_model(m, ts, ticks);
            let snap = Seq::new(ts.len(), |j: int| (ts[j].id, ticks.last()[j]));
            forall|c: int|
                0 <= c < mf.buckets.len() ==> (#[trigger] mf.buckets[c]).to_multiset()
                    == rebuild_model(mf, snap).buckets[c].to_multiset()
        }),
{
    let (mf, tsf) = run_model(m, ts, ticks);
    let snap = Seq::new(ts.len(), |j: int| (ts[j].id, ticks.last()[j]));
    lemma_run_coherent(m, ts, ticks);
    lemma_rebuild_buckets(mf, snap);
    assert forall|c: int| 0 <= c < mf.buckets.len() implies (#[trigger] mf.buckets[c]).to_multiset()
        == rebuild_model(mf, snap).buckets[c].to_multiset() by {
        assert forall|j: int|
            0 <= j < tsf.len() implies snap[j].0 == (#[trigger] tsf[j]).id && cell_of(mf, snap[j].1)
            == tsf[j].cell by {
            lemma_cell_of_congruent(mf, m, ticks.last()[j]);
        }
        lemma_snapshot_occupants(mf, tsf, snap, c);
        assert(rebuild_model(mf, snap).buckets[c] == snapshot_bucket(mf, snap, c));
    }
}

} // verus!
