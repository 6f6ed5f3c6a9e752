//! The full-rebuild strategy: each tick, clear every bucket and reinsert
//! every tracked entity from its current position.

use crate::grid::{
    cell_of, clear_model, in_bounds, insert_model, lemma_cell_index_in_range,
    lemma_cell_of_congruent, Grid, GridModel, Position,
};
use vstd::prelude::*;

verus! {

/// Model of inserting a snapshot of `(identifier, position)` pairs in order.
pub open spec fn insert_all(m: GridModel, es: Seq<(u64, Position)>) -> GridModel
    decreases es.len(),
{
    if es.len() == 0 {
        m
    } else {
        insert_model(insert_all(m, es.drop_last()), es.last().0, es.last().1)
    }
}

/// Model of [`rebuild`]: clear every bucket, then insert the whole snapshot.
pub open spec fn rebuild_model(m: GridModel, es: Seq<(u64, Position)>) -> GridModel {
    insert_all(clear_model(m), es)
}

/// The identifiers a snapshot puts into cell `c`, in snapshot order: the
/// identifiers of exactly the entries whose position maps to cell `c`.
pub open spec fn snapshot_bucket(m: GridModel, es: Seq<(u64, Position)>, c: int) -> Seq<u64>
    decreases es.len(),
{
    if es.len() == 0 {
        Seq::empty()
    } else {
        let rest = snapshot_bucket(m, es.drop_last(), c);
        if cell_of(m, es.last().1) == Some(c) {
            rest.push(es.last().0)
        } else {
            rest
        }
    }
}

/// Inserting a snapshot preserves the configuration, well-formedness, and
/// the number of buckets.
pub proof fn lemma_insert_all_wf(m: GridModel, es: Seq<(u64, Position)>)
    requires
        m.wf(),
    ensures
        insert_all(m, es).wf(),
        insert_all(m, es).extent == m.extent,
        insert_all(m, es).cell_size == m.cell_size,
        insert_all(m, es).columns == m.columns,
        insert_all(m, es).buckets.len() == m.buckets.len(),
    decreases es.len(),
{
    if es.len() > 0 {
        lemma_insert_all_wf(m, es.drop_last());
        let prev = insert_all(m, es.drop_last());
        lemma_cell_of_congruent(prev, m, es.last().1);
        if in_bounds(m, es.last().1) {
            lemma_cell_index_in_range(prev, es.last().1);
        }
    }
}

/// After inserting a snapshot into a cleared grid, every bucket holds exactly
/// the identifiers the snapshot maps to its cell, in snapshot order.
pub proof fn lemma_rebuild_buckets(m: GridModel, es: Seq<(u64, Position)>)
    requires
        m.wf(),
    ensures
        forall|c: int|
            0 <= c < m.buckets.len() ==> #[trigger] rebuild_model(m, es).buckets[c]
                == snapshot_bucket(m, es, c),
    decreases es.len(),
{
    lemma_insert_all_wf(clear_model(m), es);
    if es.len() == 0 {
    } else {
        lemma_rebuild_buckets(m, es.drop_last());
        let prev = rebuild_model(m, es.drop_last());
        lemma_insert_all_wf(clear_model(m), es.drop_last());
        lemma_cell_of_congruent(prev, m, es.last().1);
        if in_bounds(m, es.last().1) {
            lemma_cell_index_in_range(prev, es.last().1);
        }
    }
}

/// Rebuild idempotence: rebuilding twice from the same snapshot gives the
/// same grid as rebuilding once; repeated rebuilds on a static snapshot
/// accumulate nothing.
pub proof fn lemma_rebuild_idempotent(m: GridModel, es: Seq<(u64, Position)>)
    requires
        m.wf(),
    ensures
        rebuild_model(rebuild_model(m, es), es) == rebuild_model(m, es),
{
    lemma_insert_all_wf(clear_model(m), es);
    assert(clear_model(rebuild_model(m, es)) =~~= clear_model(m));
}

/// One tick of the rebuild strategy: clears all buckets, then reinserts every
/// entity of the snapshot from its current position. Afterwards the bucket
/// contents exactly reflect the snapshot passed in; nothing from an earlier
/// tick persists (see [`lemma_rebuild_buckets`] and
/// [`lemma_rebuild_idempotent`]).
pub fn rebuild(grid: &mut Grid, entities: &Vec<(u64, Position)>)
    requires
        old(grid)@.wf(),
    ensures
        final(grid)@ == rebuild_model(old(grid)@, entities@),
        final(grid)@.wf(),
{
    grid.clear();
    let n = entities.len();
    let mut i: usize = 0;
    while i < n
        invariant
            old(grid)@.wf(),
            n == entities@.len(),
            i <= n,
            grid@ == insert_all(clear_model(old(grid)@), entities@.take(i as int)),
            grid@.wf(),
        decreases n - i,
    {
        let (id, p) = entities[i];
        grid.insert(id, p);
        proof {
            let taken = entities@.take(i + 1 as int);
            assert(taken.drop_last() =~= entities@.take(i as int));
            assert(taken.last() == entities@[i as int]);
        }
        i = i + 1;
    }
    proof {
        assert(entities@.take(n as int) =~= entities@);
    }
}

} // verus!
