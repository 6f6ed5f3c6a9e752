//! The incremental strategy: each tracked entity remembers its last occupied
//! cell, and a per-tick update moves only entities whose cell changed.

use crate::grid::{
    cell_of, lemma_cell_of_congruent, remove_model, Grid, GridError, GridModel, Position,
};
use vstd::prelude::*;

verus! {

/// Mathematical model of a [`TrackedEntity`]: its identifier and the cell it
/// currently occupies, `None` until first indexed or while out of bounds.
#[verifier::ext_equal]
pub ghost struct TrackerModel {
    pub id: u64,
    pub cell: Option<int>,
}

/// A tracker's stored cell, when present, names an existing bucket.
pub open spec fn tracker_valid(t: TrackerModel, m: GridModel) -> bool {
    t.cell is Some ==> 0 <= t.cell.unwrap() < m.buckets.len()
}

/// Model of [`update`]: if the newly computed cell equals the stored one
/// (including both `None`), nothing happens; otherwise the identifier leaves
/// the old bucket (when one was stored), joins the new one (when the position
/// is in bounds), and the stored cell becomes the new cell.
pub open spec fn update_model(m: GridModel, t: TrackerModel, p: Position) -> (GridModel,
    TrackerModel) {
    let nc = cell_of(m, p);
    if t.cell == nc {
        (m, t)
    } else {
        let removed = match t.cell {
            Some(oc) => remove_model(m, t.id, oc),
            None => m,
        };
        let placed = match nc {
            Some(c) => GridModel {
                buckets: removed.buckets.update(c, removed.buckets[c].push(t.id)),
                ..removed
            },
            None => removed,
        };
        (placed, TrackerModel { id: t.id, cell: nc })
    }
}

/// An update is stale when the entity must move but its stored bucket does
/// not hold its identifier: the stored state was desynchronized.
pub open spec fn update_stale(m: GridModel, t: TrackerModel, p: Position) -> bool {
    &&& cell_of(m, p) != t.cell
    &&& t.cell is Some
    &&& !m.buckets[t.cell.unwrap()].contains(t.id)
}

/// Per-entity state for the incremental strategy. The identifier is a
/// foreign key owned by the external entity registry; this system only
/// indexes it.
pub struct TrackedEntity {
    id: u64,
    current_cell: Option<usize>,
}

impl View for TrackedEntity {
    type V = TrackerModel;

    closed spec fn view(&self) -> TrackerModel {
        TrackerModel {
            id: self.id,
            cell: match self.current_cell {
                Some(c) => Some(c as int),
                None => None,
            },
        }
    }
}

impl TrackedEntity {
    /// Registers an entity for tracking: not yet placed in any bucket.
    pub fn new(id: u64) -> (r: TrackedEntity)
        ensures
            r@ == (TrackerModel { id, cell: None }),
    {
        TrackedEntity { id, current_cell: None }
    }

    /// The tracked entity's identifier.
    pub fn id(&self) -> (r: u64)
        ensures
            r == self@.id,
    {
        self.id
    }

    /// The cell the entity currently occupies, `None` when it is unplaced.
    pub fn current_cell(&self) -> (r: Option<usize>)
        ensures
            match r {
                Some(c) => self@.cell == Some(c as int),
                None => self@.cell is None,
            },
    {
        self.current_cell
    }
}

/// One incremental step for one entity: computes the cell of `p` and, only
/// when it differs from the stored cell, removes the identifier from its old
/// bucket, inserts it into the new one, and stores the new cell. Afterwards
/// bucket membership matches the entity's last computed cell; an entity that
/// left the indexed region is removed from its prior bucket and stores
/// `None`.
///
/// Returns `NotFound` when the entity had to move but its stored bucket did
/// not hold it (a desynchronized stored cell); the grid and the tracker are
/// still brought up to date, so the caller may log the error and continue
/// the tick.
pub fn update(grid: &mut Grid, entity: &mut TrackedEntity, p: Position) -> (r: Result<
    (),
    GridError,
>)
    requires
        old(grid)@.wf(),
        tracker_valid(old(entity)@, old(grid)@),
    ensures
        final(grid)@ == update_model(old(grid)@, old(entity)@, p).0,
        final(entity)@ == update_model(old(grid)@, old(entity)@, p).1,
        final(grid)@.wf(),
        tracker_valid(final(entity)@, final(grid)@),
        r is Ok <==> !update_stale(old(grid)@, old(entity)@, p),
        r is Err ==> r == Err::<(), GridError>(GridError::NotFound),
{
    let nc = grid.cell_index_for(p);
    let same = match (entity.current_cell, nc) {
        (Some(a), Some(b)) => a == b,
        (None, None) => true,
        _ => false,
    };
    if same {
        return Ok(());
    }
    let mut r: Result<(), GridError> = Ok(());
    match entity.current_cell {
        Some(oc) => {
            r = grid.remove(entity.id, oc);
        },
        None => {},
    }
    let ghost removed = update_model(old(grid)@, old(entity)@, p).0;
    proof {
        lemma_cell_of_congruent(grid@, old(grid)@, p);
    }
    match nc {
        Some(_) => {
            grid.insert(entity.id, p);
        },
        None => {},
    }
    entity.current_cell = nc;
    proof {
        assert(grid@ =~~= update_model(old(grid)@, old(entity)@, p).0);
    }
    r
}

/// View of a whole tracker list, for contracts over a tick.
pub open spec fn tracker_views(ts: Seq<TrackedEntity>) -> Seq<TrackerModel> {
    Seq::new(ts.len(), |i: int| ts[i]@)
}

/// One incremental tick: updates every tracked entity once, in order, against
/// its position for the tick. Requires the coherence invariant (which a fresh
/// grid with unplaced trackers satisfies and every tick preserves); under it
/// no update is ever stale, so there are no removal failures to report.
pub fn update_tick(grid: &mut Grid, trackers: &mut Vec<TrackedEntity>, positions: &Vec<Position>)
    requires
        crate::equivalence::coherent(old(grid)@, tracker_views(old(trackers)@)),
        positions@.len() == old(trackers)@.len(),
    ensures
        final(grid)@ == crate::equivalence::tick_model(
            old(grid)@,
            tracker_views(old(trackers)@),
            positions@,
        ).0,
        tracker_views(final(trackers)@) == crate::equivalence::tick_model(
            old(grid)@,
            tracker_views(old(trackers)@),
            positions@,
        ).1,
        crate::equivalence::coherent(final(grid)@, tracker_views(final(trackers)@)),
{
    let ghost ts0 = tracker_views(old(trackers)@);
    let n = trackers.len();
    let mut i: usize = 0;
    while i < n
        invariant
            positions@.len() == n,
            trackers@.len() == n,
            i <= n,
            (grid@, tracker_views(trackers@)) == crate::equivalence::tick_upto(
                old(grid)@,
                ts0,
                positions@,
                i as int,
            ),
            crate::equivalence::coherent(grid@, tracker_views(trackers@)),
            ts0 == tracker_views(old(trackers)@),
            ts0.len() == n,
        decreases n - i,
    {
        let ghost pre_grid = grid@;
        let ghost pre_views = tracker_views(trackers@);
        proof {
            assert(tracker_valid(pre_views[i as int], pre_grid));
            assert(pre_views[i as int] == trackers@[i as int]@);
        }
        let tr = &mut trackers[i];
        let r = update(grid, tr, positions[i]);
        proof {
            crate::equivalence::lemma_coherent_update(
                pre_grid,
                pre_views,
                i as int,
                positions@[i as int],
            );
            let st = update_model(pre_grid, pre_views[i as int], positions@[i as int]);
            assert(tracker_views(trackers@) =~= pre_views.update(i as int, st.1));
            assert(r is Ok);
        }
        i = i + 1;
    }
}

/// No-op stability: updating an entity twice with the same position changes
/// neither the grid nor the stored cell after the first update.
pub proof fn lemma_update_noop(m: GridModel, t: TrackerModel, p: Position)
    requires
        m.wf(),
    ensures
        ({
            let (m1, t1) = update_model(m, t, p);
            update_model(m1, t1, p) == (m1, t1)
        }),
{
    let (m1, t1) = update_model(m, t, p);
    lemma_cell_of_congruent(m1, m, p);
}

} // verus!
