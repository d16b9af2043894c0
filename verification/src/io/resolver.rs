//! The executable dependency resolver.

use super::error::BuildError;
use super::order::{
    carried, cycle_search, definition_nodes, emission, first_at, first_missing, first_waiting,
    first_waiting_with, in_dependency_order, is_cycle, is_dependency_order, lemma_cycle_search,
    lemma_distinct_indices, lemma_first_at_found, lemma_orderable, lemma_pass, nodes_of,
    orderable, ordered_definitions, pass, ready, settle, uuid_kinds, walk, Dependent, Walk,
};
use super::raw::{CustomCircuitWrapper, RawObject};
use crate::boundary::{is_uuid, texts};
use crate::vecs::indices;
use vstd::prelude::*;

verus! {

/// Whether a list of definitions and the indices emitted so far fit
/// together: every index names a definition, and `done` marks exactly the
/// emitted ones.
spec fn tracked_by(nodes: Seq<Dependent>, emitted: Seq<usize>, done: Seq<bool>) -> bool {
    &&& done.len() == nodes.len()
    &&& forall|k: int| 0 <= k < emitted.len() ==> (#[trigger] emitted[k]) < nodes.len()
    &&& forall|i: int| 0 <= i < nodes.len() ==> #[trigger] done[i] == indices(emitted).contains(i)
}

fn is_carried(nodes: &Vec<Dependent>, emitted: &Vec<usize>, uid: &str) -> (yes: bool)
    requires
        forall|k: int| 0 <= k < emitted.len() ==> (#[trigger] emitted[k]) < nodes.len(),
    ensures
        yes == carried(nodes_of(nodes@), indices(emitted@), uid@),
{
    let mut k: usize = 0;
    while k < emitted.len()
        invariant
            k <= emitted.len(),
            forall|k: int| 0 <= k < emitted.len() ==> (#[trigger] emitted[k]) < nodes.len(),
            forall|e: int|
                0 <= e < k ==> nodes_of(nodes@)[#[trigger] indices(emitted@)[e]].uid != uid@,
        decreases emitted.len() - k,
    {
        if nodes[emitted[k]].uid.as_str().eq(uid) {
            proof {
                assert(nodes_of(nodes@)[indices(emitted@)[k as int]].uid == uid@);
            }
            return true;
        }
        k = k + 1;
    }
    false
}

fn is_ready(nodes: &Vec<Dependent>, emitted: &Vec<usize>, i: usize) -> (yes: bool)
    requires
        i < nodes.len(),
        forall|k: int| 0 <= k < emitted.len() ==> (#[trigger] emitted[k]) < nodes.len(),
    ensures
        yes == ready(nodes_of(nodes@), indices(emitted@), i as int),
{
    let needs = &nodes[i].needs;
    let ghost ns = nodes_of(nodes@);
    let mut j: usize = 0;
    while j < needs.len()
        invariant
            j <= needs.len(),
            i < nodes.len(),
            ns == nodes_of(nodes@),
            *needs == nodes[i as int].needs,
            forall|k: int| 0 <= k < emitted.len() ==> (#[trigger] emitted[k]) < nodes.len(),
            forall|q: int|
                0 <= q < j ==> carried(ns, indices(emitted@), #[trigger] ns[i as int].needs[q]),
        decreases needs.len() - j,
    {
        proof {
            assert(ns[i as int].needs[j as int] == needs[j as int]@);
        }
        if !is_carried(nodes, emitted, needs[j].as_str()) {
            return false;
        }
        j = j + 1;
    }
    true
}

fn find_missing(nodes: &Vec<Dependent>, emitted: &Vec<usize>, i: usize) -> (found: Option<usize>)
    requires
        i < nodes.len(),
        forall|k: int| 0 <= k < emitted.len() ==> (#[trigger] emitted[k]) < nodes.len(),
    ensures
        match found {
            Some(j) => j < nodes[i as int].needs.len() && first_missing(
                nodes_of(nodes@),
                indices(emitted@),
                i as int,
                0,
            ) == Some(nodes[i as int].needs[j as int]@),
            None => first_missing(nodes_of(nodes@), indices(emitted@), i as int, 0) is None,
        },
{
    let needs = &nodes[i].needs;
    let ghost ns = nodes_of(nodes@);
    let mut j: usize = 0;
    while j < needs.len()
        invariant
            j <= needs.len(),
            i < nodes.len(),
            ns == nodes_of(nodes@),
            *needs == nodes[i as int].needs,
            forall|k: int| 0 <= k < emitted.len() ==> (#[trigger] emitted[k]) < nodes.len(),
            first_missing(ns, indices(emitted@), i as int, 0) == first_missing(
                ns,
                indices(emitted@),
                i as int,
                j as int,
            ),
        decreases needs.len() - j,
    {
        proof {
            assert(ns[i as int].needs[j as int] == needs[j as int]@);
        }
        if !is_carried(nodes, emitted, needs[j].as_str()) {
            return Some(j);
        }
        j = j + 1;
    }
    None
}

fn find_waiting(nodes: &Vec<Dependent>, emitted: &Vec<usize>, done: &Vec<bool>) -> (found: Option<
    usize,
>)
    requires
        tracked_by(nodes@, emitted@, done@),
    ensures
        match found {
            Some(i) => i < nodes.len() && first_waiting(nodes_of(nodes@), indices(emitted@), 0)
                == Some(i as int),
            None => first_waiting(nodes_of(nodes@), indices(emitted@), 0) is None,
        },
{
    let mut i: usize = 0;
    while i < done.len()
        invariant
            i <= done.len(),
            tracked_by(nodes@, emitted@, done@),
            first_waiting(nodes_of(nodes@), indices(emitted@), 0) == first_waiting(
                nodes_of(nodes@),
                indices(emitted@),
                i as int,
            ),
        decreases done.len() - i,
    {
        if !done[i] {
            return Some(i);
        }
        i = i + 1;
    }
    None
}

fn find_waiting_with(
    nodes: &Vec<Dependent>,
    emitted: &Vec<usize>,
    done: &Vec<bool>,
    uid: &str,
) -> (found: Option<usize>)
    requires
        tracked_by(nodes@, emitted@, done@),
    ensures
        match found {
            Some(i) => i < nodes.len() && first_waiting_with(
                nodes_of(nodes@),
                indices(emitted@),
                uid@,
                0,
            ) == Some(i as int),
            None => first_waiting_with(nodes_of(nodes@), indices(emitted@), uid@, 0) is None,
        },
{
    let mut i: usize = 0;
    while i < done.len()
        invariant
            i <= done.len(),
            tracked_by(nodes@, emitted@, done@),
            first_waiting_with(nodes_of(nodes@), indices(emitted@), uid@, 0) == first_waiting_with(
                nodes_of(nodes@),
                indices(emitted@),
                uid@,
                i as int,
            ),
        decreases done.len() - i,
    {
        if !done[i] && nodes[i].uid.as_str().eq(uid) {
            return Some(i);
        }
        i = i + 1;
    }
    None
}

fn find_in(list: &Vec<String>, text: &str) -> (found: Option<usize>)
    ensures
        match found {
            Some(k) => k < list.len() && first_at(texts(list@), text@, 0) == Some(k as int),
            None => first_at(texts(list@), text@, 0) is None,
        },
{
    let mut k: usize = 0;
    while k < list.len()
        invariant
            k <= list.len(),
            first_at(texts(list@), text@, 0) == first_at(texts(list@), text@, k as int),
        decreases list.len() - k,
    {
        if list[k].as_str().eq(text) {
            return Some(k);
        }
        k = k + 1;
    }
    None
}

fn copy_from(list: &Vec<String>, from: usize) -> (tail: Vec<String>)
    requires
        from <= list.len(),
    ensures
        texts(tail@) == texts(list@).skip(from as int),
{
    let mut tail: Vec<String> = Vec::new();
    let mut k: usize = from;
    while k < list.len()
        invariant
            from <= k <= list.len(),
            texts(tail@) =~= texts(list@).subrange(from as int, k as int),
        decreases list.len() - k,
    {
        let ghost copied = tail@;
        tail.push(list[k].clone());
        proof {
            assert(texts(tail@) =~= texts(copied).push(list[k as int]@));
        }
        k = k + 1;
    }
    proof {
        assert(texts(list@).subrange(from as int, list.len() as int) =~= texts(list@).skip(
            from as int,
        ));
    }
    tail
}

fn all_false(len: usize) -> (flags: Vec<bool>)
    ensures
        flags@.len() == len,
        forall|i: int| 0 <= i < len ==> !flags@[i],
{
    let mut flags: Vec<bool> = Vec::new();
    let mut i: usize = 0;
    while i < len
        invariant
            i <= len,
            flags@.len() == i,
            forall|k: int| 0 <= k < i ==> !flags@[k],
        decreases len - i,
    {
        flags.push(false);
        i = i + 1;
    }
    flags
}

/// Follows the needs from definition `start` until a uid repeats.
fn search_cycle(nodes: &Vec<Dependent>, emitted: &Vec<usize>, done: &Vec<bool>, start: usize) -> (e:
    BuildError)
    requires
        tracked_by(nodes@, emitted@, done@),
        start < nodes.len(),
    ensures
        match e {
            BuildError::DependencyCycle(path) => walk(
                nodes_of(nodes@),
                indices(emitted@),
                Seq::empty(),
                start as int,
            ) == Walk::Cycle(texts(path@)),
            BuildError::CycleNotFound => walk(
                nodes_of(nodes@),
                indices(emitted@),
                Seq::empty(),
                start as int,
            ) is Lost,
            _ => false,
        },
{
    let ghost ns = nodes_of(nodes@);
    let ghost em = indices(emitted@);
    let ghost mut steps: Seq<int> = Seq::empty();
    let mut trail: Vec<String> = Vec::new();
    let mut at: usize = start;
    proof {
        assert(texts(trail@) =~= Seq::<Seq<char>>::empty());
    }
    loop
        invariant
            ns == nodes_of(nodes@),
            em == indices(emitted@),
            tracked_by(nodes@, emitted@, done@),
            at < nodes.len(),
            walk(ns, em, texts(trail@), at as int) == walk(ns, em, Seq::empty(), start as int),
            steps.len() == trail.len(),
            steps.no_duplicates(),
            forall|k: int|
                0 <= k < steps.len() ==> 0 <= #[trigger] steps[k] < ns.len() && ns[steps[k]].uid
                    == texts(trail@)[k],
        decreases nodes.len() - trail.len(),
    {
        let uid = &nodes[at].uid;
        proof {
            assert(ns[at as int].uid == uid@);
            assert(ns[at as int].needs == texts(nodes[at as int].needs@));
        }
        match find_in(&trail, uid.as_str()) {
            Some(j) => {
                let mut path = copy_from(&trail, j);
                path.push(uid.clone());
                proof {
                    assert(texts(path@) =~= texts(trail@).skip(j as int).push(uid@));
                }
                return BuildError::DependencyCycle(path);
            },
            None => {},
        }
        let names_itself = find_in(&nodes[at].needs, uid.as_str()).is_some();
        proof {
            lemma_first_at_found(ns[at as int].needs, uid@);
        }
        if names_itself && !is_carried(nodes, emitted, uid.as_str()) {
            let mut path: Vec<String> = Vec::new();
            path.push(uid.clone());
            path.push(uid.clone());
            proof {
                assert(texts(path@) =~= seq![uid@, uid@]);
            }
            return BuildError::DependencyCycle(path);
        }
        proof {
            lemma_first_at_found(texts(trail@), uid@);
            let longer = steps.push(at as int);
            assert(longer.no_duplicates()) by {
                assert forall|a: int, b: int|
                    0 <= a < longer.len() && 0 <= b < longer.len() && a != b implies longer[a]
                    != longer[b] by {
                    if a == steps.len() {
                        assert(ns[steps[b]].uid == texts(trail@)[b]);
                    } else if b == steps.len() {
                        assert(ns[steps[a]].uid == texts(trail@)[a]);
                    }
                }
            }
            lemma_distinct_indices(longer, ns.len() as int);
        }
        let need = match find_missing(nodes, emitted, at) {
            Some(j) => &nodes[at].needs[j],
            None => return BuildError::CycleNotFound,
        };
        let next = match find_waiting_with(nodes, emitted, done, need.as_str()) {
            Some(next) => next,
            None => return BuildError::CycleNotFound,
        };
        let ghost passed = trail@;
        trail.push(uid.clone());
        proof {
            assert(texts(trail@) =~= texts(passed).push(uid@));
            steps = steps.push(at as int);
        }
        at = next;
    }
}

/// Puts definitions in an order in which each comes after those that carry
/// its needs: the order in which repeated passes over them emit them. Where
/// no such order exists, reports the circle of dependencies that the walk
/// from the first definition left waiting runs into.
pub fn dependency_order(nodes: &Vec<Dependent>) -> (res: Result<Vec<usize>, BuildError>)
    ensures
        res is Ok <==> orderable(nodes_of(nodes@)),
        match res {
            Ok(order) => indices(order@) == emission(nodes_of(nodes@)) && is_dependency_order(
                nodes_of(nodes@),
                indices(order@),
            ),
            Err(BuildError::DependencyCycle(path)) => cycle_search(nodes_of(nodes@)) == Walk::Cycle(
                texts(path@),
            ) && is_cycle(nodes_of(nodes@), texts(path@)),
            Err(BuildError::CycleNotFound) => cycle_search(nodes_of(nodes@)) is Lost,
            Err(_) => false,
        },
{
    let n = nodes.len();
    let ghost ns = nodes_of(nodes@);
    let mut emitted: Vec<usize> = Vec::new();
    let mut done: Vec<bool> = all_false(n);
    proof {
        assert(indices(emitted@) =~= Seq::<int>::empty());
        lemma_orderable(ns);
    }
    loop
        invariant
            n == nodes.len(),
            ns == nodes_of(nodes@),
            tracked_by(nodes@, emitted@, done@),
            in_dependency_order(ns, indices(emitted@)),
            settle(ns, indices(emitted@)) == emission(ns),
            emitted.len() <= n,
        ensures
            pass(ns, indices(emitted@), 0).len() == emitted.len(),
        decreases n - emitted.len(),
    {
        let before = emitted.len();
        let ghost start = indices(emitted@);
        let mut i: usize = 0;
        while i < n
            invariant
                i <= n,
                n == nodes.len(),
                ns == nodes_of(nodes@),
                tracked_by(nodes@, emitted@, done@),
                pass(ns, indices(emitted@), i as int) == pass(ns, start, 0),
                before <= emitted.len(),
            decreases n - i,
        {
            if !done[i] && is_ready(nodes, &emitted, i) {
                let ghost earlier = emitted@;
                emitted.push(i);
                done.set(i, true);
                proof {
                    assert(indices(emitted@) =~= indices(earlier).push(i as int));
                    assert forall|q: int| 0 <= q < n implies #[trigger] done@[q] == indices(
                        emitted@,
                    ).contains(q) by {
                        if q == i {
                            assert(indices(emitted@)[earlier.len() as int] == q);
                        } else if indices(earlier).contains(q) {
                            let k = choose|k: int|
                                0 <= k < indices(earlier).len() && indices(earlier)[k] == q;
                            assert(indices(emitted@)[k] == q);
                        }
                    }
                }
            }
            i = i + 1;
        }
        proof {
            assert(pass(ns, indices(emitted@), n as int) == indices(emitted@));
            lemma_pass(ns, start, 0);
            lemma_distinct_indices(indices(emitted@), n as int);
            if emitted.len() == before {
                assert(indices(emitted@).take(start.len() as int) =~= indices(emitted@));
            }
        }
        if emitted.len() == before {
            break ;
        }
    }
    proof {
        assert(emission(ns) == indices(emitted@));
    }
    if emitted.len() == n {
        Ok(emitted)
    } else {
        proof {
            lemma_cycle_search(ns);
        }
        match find_waiting(nodes, &emitted, &done) {
            Some(start) => Err(search_cycle(nodes, &emitted, &done, start)),
            None => Err(BuildError::CycleNotFound),
        }
    }
}

/// Moves the items of a list into the order that `order` gives.
fn reorder<T>(items: Vec<T>, order: &Vec<usize>) -> (moved: Vec<T>)
    requires
        order.len() == items.len(),
        indices(order@).no_duplicates(),
        forall|p: int| 0 <= p < order.len() ==> (#[trigger] order[p]) < items.len(),
    ensures
        moved@ == indices(order@).map_values(|i: int| items@[i]),
{
    let n = items.len();
    let ghost given = items@;
    let mut rest = items;
    let mut slots: Vec<Option<T>> = Vec::new();
    loop
        invariant
            rest@ == given.take(rest.len() as int),
            rest.len() + slots.len() == n,
            n == given.len(),
            forall|k: int| 0 <= k < slots.len() ==> #[trigger] slots[k] == Some(given[n - 1 - k]),
        ensures
            slots.len() == n,
        decreases rest.len(),
    {
        match rest.pop() {
            Some(item) => {
                slots.push(Some(item));
            },
            None => {
                break ;
            },
        }
    }
    let mut moved: Vec<T> = Vec::new();
    let mut p: usize = 0;
    while p < n
        invariant
            p <= n,
            n == given.len(),
            order.len() == n,
            slots.len() == n,
            indices(order@).no_duplicates(),
            forall|q: int| 0 <= q < order.len() ==> (#[trigger] order[q]) < n,
            moved@ =~= indices(order@).take(p as int).map_values(|i: int| given[i]),
            forall|i: int|
                0 <= i < n ==> #[trigger] slots[n - 1 - i] == if indices(order@).take(
                    p as int,
                ).contains(i) {
                    None
                } else {
                    Some(given[i])
                },
        decreases n - p,
    {
        let i = order[p];
        let ghost before = slots@;
        let mut taken: Option<T> = None;
        std::mem::swap(&mut taken, &mut slots[n - 1 - i]);
        proof {
            let all = indices(order@);
            let sooner = all.take(p as int);
            let later = all.take(p + 1);
            if sooner.contains(i as int) {
                let q = choose|q: int| 0 <= q < sooner.len() && sooner[q] == i as int;
                assert(all[q] == all[p as int]);
            }
            assert(before[n - 1 - i] == Some(given[i as int]));
            assert(later =~= sooner.push(i as int));
            assert forall|e: int| 0 <= e < n implies #[trigger] slots[n - 1 - e] == if later.contains(
                e,
            ) {
                None
            } else {
                Some(given[e])
            } by {
                if e == i {
                    assert(later[p as int] == e);
                } else {
                    assert(slots[n - 1 - e] == before[n - 1 - e]);
                    if sooner.contains(e) {
                        let q = choose|q: int| 0 <= q < sooner.len() && sooner[q] == e;
                        assert(later[q] == e);
                    } else if later.contains(e) {
                        let q = choose|q: int| 0 <= q < later.len() && later[q] == e;
                        assert(sooner[q] == e);
                    }
                }
            }
        }
        moved.push(taken.unwrap());
        p = p + 1;
    }
    proof {
        assert(indices(order@).take(n as int) =~= indices(order@));
    }
    moved
}

/// The uids that the objects of a definition instantiate.
fn instantiated(objects: &Vec<RawObject>) -> (needs: Vec<String>)
    ensures
        texts(needs@) == uuid_kinds(objects@),
{
    let mut needs: Vec<String> = Vec::new();
    let mut i: usize = 0;
    proof {
        assert(texts(needs@) =~= uuid_kinds(objects@.take(0)));
    }
    while i < objects.len()
        invariant
            i <= objects.len(),
            texts(needs@) == uuid_kinds(objects@.take(i as int)),
        decreases objects.len() - i,
    {
        proof {
            assert(objects@.take(i + 1).drop_last() =~= objects@.take(i as int));
        }
        if is_uuid(objects[i].kind.as_str()) {
            let ghost found = needs@;
            needs.push(objects[i].kind.clone());
            proof {
                assert(texts(needs@) =~= texts(found).push(objects[i as int].kind@));
            }
        }
        i = i + 1;
    }
    proof {
        assert(objects@.take(i as int) =~= objects@);
    }
    needs
}

/// Puts sub-circuit definitions in an order in which each comes after
/// those it instantiates. A definition instantiates another where the kind
/// tag of one of its objects has the syntax of a UUID and is the other's
/// uid. Where no such order exists, reports a circle of dependencies.
pub fn order_dependency_graph(items: Vec<CustomCircuitWrapper>) -> (res: Result<
    Vec<CustomCircuitWrapper>,
    BuildError,
>)
    ensures
        res is Ok <==> orderable(definition_nodes(items@)),
        match res {
            Ok(ordered) => ordered@ == ordered_definitions(items@) && is_dependency_order(
                definition_nodes(items@),
                emission(definition_nodes(items@)),
            ),
            Err(BuildError::DependencyCycle(path)) => cycle_search(definition_nodes(items@))
                == Walk::Cycle(texts(path@)) && is_cycle(definition_nodes(items@), texts(path@)),
            Err(BuildError::CycleNotFound) => cycle_search(definition_nodes(items@)) is Lost,
            Err(_) => false,
        },
{
    let mut dependents: Vec<Dependent> = Vec::new();
    let mut i: usize = 0;
    while i < items.len()
        invariant
            i <= items.len(),
            nodes_of(dependents@) =~= definition_nodes(items@.take(i as int)),
        decreases items.len() - i,
    {
        let ghost gathered = dependents@;
        let needs = instantiated(&items[i].inner.objects);
        dependents.push(Dependent { uid: items[i].uid.clone(), needs });
        proof {
            assert(nodes_of(dependents@) =~= nodes_of(gathered).push(dependents@.last().node()));
            assert(definition_nodes(items@.take(i + 1)) =~= definition_nodes(
                items@.take(i as int),
            ).push(definition_nodes(items@)[i as int]));
        }
        i = i + 1;
    }
    proof {
        assert(items@.take(i as int) =~= items@);
    }
    match dependency_order(&dependents) {
        Ok(order) => {
            proof {
                assert forall|p: int| 0 <= p < order.len() implies (#[trigger] order[p])
                    < items.len() by {
                    assert(0 <= indices(order@)[p] < definition_nodes(items@).len());
                }
            }
            let ordered = reorder(items, &order);
            proof {
                assert(ordered@ =~= ordered_definitions(items@));
            }
            Ok(ordered)
        },
        Err(e) => Err(e),
    }
}

} // verus!
