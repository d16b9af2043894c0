//! Circuits without feedback become stable: after as many sweeps as there
//! are objects, a further sweep changes nothing.

use super::model::{
    input_values, next_value, settle, source_value, step, sweep, sweep_from, State, Table,
};
use super::sound::{keeps_its_values, lemma_step, lemma_sweep_from, shaped, sound};
use crate::io::netlist::Object;
use vstd::prelude::*;

verus! {

/// The state after `count` sweeps.
pub open spec fn sweeps(objects: Seq<Object>, tables: Seq<Table>, state: State, count: nat) -> State
    decreases count,
{
    if count == 0 {
        state
    } else {
        sweep(objects, tables, sweeps(objects, tables, state, (count - 1) as nat))
    }
}

/// Whether `layer` puts the objects in layers, fewer than there are
/// objects, such that every connection leads from a layer to a later one.
/// A circuit has no feedback exactly when its objects can be put in
/// layers so.
pub open spec fn layered(objects: Seq<Object>, layer: Seq<nat>) -> bool {
    &&& layer.len() == objects.len()
    &&& forall|i: int| 0 <= i < objects.len() ==> #[trigger] layer[i] < objects.len()
    &&& forall|i: int, p: int|
        0 <= i < objects.len() && 0 <= p < objects[i].inner.slots().len() ==> match #[trigger] objects[i].inner.slots()[p] {
            Some((port, source)) => source < objects.len() && layer[source as int] < layer[i],
            None => true,
        }
}

/// The state in the middle of a sweep, when the objects before index
/// `upto` have been updated.
spec fn partial(objects: Seq<Object>, tables: Seq<Table>, state: State, upto: nat) -> State
    decreases upto,
{
    if upto == 0 {
        state
    } else {
        step(objects, tables, partial(objects, tables, state, (upto - 1) as nat), upto - 1)
    }
}

/// Whether the values of the object at `at` are the same after `from`
/// sweeps and after any larger number of sweeps.
spec fn settled(objects: Seq<Object>, tables: Seq<Table>, state: State, at: int, from: nat) -> bool {
    forall|count: nat|
        count >= from ==> (#[trigger] sweeps(objects, tables, state, count))[at] == sweeps(
            objects,
            tables,
            state,
            from,
        )[at]
}

proof fn lemma_partial(objects: Seq<Object>, tables: Seq<Table>, state: State, upto: nat)
    requires
        sound(objects, tables),
        shaped(objects, state),
        upto <= objects.len(),
    ensures
        shaped(objects, partial(objects, tables, state, upto)),
        sweep_from(objects, tables, partial(objects, tables, state, upto), upto as int) == sweep(
            objects,
            tables,
            state,
        ),
        forall|j: int|
            upto <= j < objects.len() ==> partial(objects, tables, state, upto)[j] == state[j],
        forall|j: int|
            0 <= j < upto ==> partial(objects, tables, state, upto)[j] == sweep(
                objects,
                tables,
                state,
            )[j],
    decreases upto,
{
    if upto > 0 {
        let before = (upto - 1) as nat;
        lemma_partial(objects, tables, state, before);
        lemma_step(objects, tables, partial(objects, tables, state, before), before as int);
    }
    lemma_sweep_from(objects, tables, partial(objects, tables, state, upto), upto as int);
}

/// The new values of an object depend on nothing but the values that its
/// input ports see.
proof fn lemma_reads_sources(object: Object, tables: Seq<Table>, a: State, b: State)
    requires
        forall|p: int|
            0 <= p < object.inner.slots().len() ==> source_value(
                a,
                #[trigger] object.inner.slots()[p],
            ) == source_value(b, object.inner.slots()[p]),
    ensures
        next_value(object, tables, a) == next_value(object, tables, b),
{
    assert(input_values(object.inner.slots(), a) =~= input_values(object.inner.slots(), b));
}

proof fn lemma_sweeps_shaped(objects: Seq<Object>, tables: Seq<Table>, state: State, count: nat)
    requires
        sound(objects, tables),
        shaped(objects, state),
    ensures
        shaped(objects, sweeps(objects, tables, state, count)),
        forall|i: int|
            0 <= i < objects.len() && keeps_its_values(objects[i]) ==> sweeps(
                objects,
                tables,
                state,
                count,
            )[i] == state[i],
    decreases count,
{
    if count > 0 {
        lemma_sweeps_shaped(objects, tables, state, (count - 1) as nat);
        lemma_sweep_from(objects, tables, sweeps(objects, tables, state, (count - 1) as nat), 0);
    }
}

/// The value that the object at `at` gets in the sweep after `count`
/// sweeps is the same as in the sweep after `from` sweeps, if all its
/// sources are settled after `from` sweeps.
proof fn lemma_same_update(
    objects: Seq<Object>,
    tables: Seq<Table>,
    state: State,
    layer: Seq<nat>,
    at: int,
    from: nat,
    count: nat,
)
    requires
        sound(objects, tables),
        shaped(objects, state),
        layered(objects, layer),
        0 <= at < objects.len(),
        count >= from,
        forall|i: int|
            0 <= i < objects.len() && layer[i] < layer[at] ==> settled(
                objects,
                tables,
                state,
                i,
                from,
            ),
    ensures
        sweeps(objects, tables, state, count + 1)[at] == sweeps(objects, tables, state, from + 1)[at],
{
    let now = sweeps(objects, tables, state, count);
    let then = sweeps(objects, tables, state, from);
    let object = objects[at];
    lemma_sweeps_shaped(objects, tables, state, count);
    lemma_sweeps_shaped(objects, tables, state, from);
    lemma_partial(objects, tables, now, at as nat);
    lemma_partial(objects, tables, then, at as nat);
    lemma_partial(objects, tables, now, (at + 1) as nat);
    lemma_partial(objects, tables, then, (at + 1) as nat);
    let mid_now = partial(objects, tables, now, at as nat);
    let mid_then = partial(objects, tables, then, at as nat);
    assert(sweeps(objects, tables, state, count + 1) == sweep(objects, tables, now));
    assert(sweeps(objects, tables, state, from + 1) == sweep(objects, tables, then));
    assert(sweep(objects, tables, now)[at] == step(objects, tables, mid_now, at)[at]);
    assert(sweep(objects, tables, then)[at] == step(objects, tables, mid_then, at)[at]);
    assert forall|p: int| 0 <= p < object.inner.slots().len() implies source_value(
        mid_now,
        #[trigger] object.inner.slots()[p],
    ) == source_value(mid_then, object.inner.slots()[p]) by {
        match object.inner.slots()[p] {
            Some((port, source)) => {
                let s = source as int;
                assert(layer[s] < layer[at]);
                assert(settled(objects, tables, state, s, from));
                assert(sweeps(objects, tables, state, count)[s] == then[s]);
                assert(sweeps(objects, tables, state, count + 1)[s] == then[s]);
                assert(sweeps(objects, tables, state, from + 1)[s] == then[s]);
            },
            None => {},
        }
    }
    lemma_reads_sources(object, tables, mid_now, mid_then);
    if keeps_its_values(object) {
        assert(now[at] == state[at]);
        assert(then[at] == state[at]);
    }
}

/// After `from` sweeps, every object in a layer below `from` is settled.
proof fn lemma_layers_settle(
    objects: Seq<Object>,
    tables: Seq<Table>,
    state: State,
    layer: Seq<nat>,
    from: nat,
)
    requires
        sound(objects, tables),
        shaped(objects, state),
        layered(objects, layer),
    ensures
        forall|i: int|
            0 <= i < objects.len() && layer[i] < from ==> settled(objects, tables, state, i, from),
    decreases from,
{
    if from > 0 {
        let before = (from - 1) as nat;
        lemma_layers_settle(objects, tables, state, layer, before);
        assert forall|i: int| 0 <= i < objects.len() && layer[i] < from implies settled(
            objects,
            tables,
            state,
            i,
            from,
        ) by {
            assert forall|count: nat| count >= from implies (#[trigger] sweeps(
                objects,
                tables,
                state,
                count,
            ))[i] == sweeps(objects, tables, state, from)[i] by {
                lemma_same_update(objects, tables, state, layer, i, before, (count - 1) as nat);
            }
        }
    }
}

/// One sweep more on the whole is one sweep more at the start.
proof fn lemma_sweeps_shift(objects: Seq<Object>, tables: Seq<Table>, state: State, count: nat)
    ensures
        sweeps(objects, tables, state, count + 1) == sweeps(
            objects,
            tables,
            sweep(objects, tables, state),
            count,
        ),
    decreases count,
{
    if count > 0 {
        lemma_sweeps_shift(objects, tables, state, (count - 1) as nat);
    } else {
        assert(sweeps(objects, tables, state, 1) == sweep(
            objects,
            tables,
            sweeps(objects, tables, state, 0),
        ));
    }
}

/// Where some number of sweeps below `limit` leads to a state that a
/// further sweep does not change, sweeping until stable finds the values
/// stable.
pub proof fn lemma_settle_finds(
    objects: Seq<Object>,
    tables: Seq<Table>,
    state: State,
    count: nat,
    limit: nat,
)
    requires
        count < limit,
        sweep(objects, tables, sweeps(objects, tables, state, count)) == sweeps(
            objects,
            tables,
            state,
            count,
        ),
    ensures
        settle(objects, tables, state, limit).1,
    decreases count,
{
    if sweep(objects, tables, state) != state {
        assert(count > 0);
        lemma_sweeps_shift(objects, tables, state, (count - 1) as nat);
        lemma_settle_finds(
            objects,
            tables,
            sweep(objects, tables, state),
            (count - 1) as nat,
            (limit - 1) as nat,
        );
    }
}

/// A circuit without feedback becomes stable within as many sweeps as it
/// has objects: after that many sweeps, from whatever values, a further
/// sweep changes nothing, so that sweeping until stable with a larger
/// limit finds the values stable.
pub proof fn lemma_feed_forward_settles(
    objects: Seq<Object>,
    tables: Seq<Table>,
    state: State,
    layer: Seq<nat>,
    limit: nat,
)
    requires
        sound(objects, tables),
        shaped(objects, state),
        layered(objects, layer),
    ensures
        sweep(objects, tables, sweeps(objects, tables, state, objects.len())) == sweeps(
            objects,
            tables,
            state,
            objects.len(),
        ),
        limit > objects.len() ==> settle(objects, tables, state, limit).1,
{
    let total = objects.len();
    let end = sweeps(objects, tables, state, total);
    let after = sweeps(objects, tables, state, total + 1);
    lemma_layers_settle(objects, tables, state, layer, total);
    lemma_sweeps_shaped(objects, tables, state, total);
    lemma_sweeps_shaped(objects, tables, state, total + 1);
    assert forall|i: int| 0 <= i < total implies after[i] == end[i] by {
        assert(settled(objects, tables, state, i, total));
    }
    assert(after =~= end);
    assert(after == sweep(objects, tables, end));
    if limit > total {
        lemma_settle_finds(objects, tables, state, total, limit);
    }
}

} // verus!
