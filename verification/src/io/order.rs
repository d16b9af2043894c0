//! Ordering sub-circuit definitions so that each comes after those it
//! instantiates, and naming a circle of dependencies where none such order
//! exists.
//!
//! The order is found by repeated passes over the definitions. A pass
//! visits them in the order given and emits each one that is still waiting
//! and whose needs are all carried by definitions emitted before it (in
//! this pass or an earlier one). Passes are repeated until one emits
//! nothing. If definitions are still waiting then, a walk starts at the
//! first of them and follows, from each definition, its first need that no
//! emitted definition carries, until it meets a uid for the second time.

use super::raw::{CustomCircuitWrapper, RawObject};
use crate::boundary::{texts, uuid_format};
use vstd::prelude::*;
use vstd::set_lib::{lemma_int_range, lemma_len_subset, lemma_subset_equality, set_int_range};

verus! {

/// A definition as the ordering sees it: its uid and the uids it needs,
/// in the order in which it names them.
pub struct Node {
    pub uid: Seq<char>,
    pub needs: Seq<Seq<char>>,
}

/// A definition with the uids of the definitions that it instantiates.
#[derive(Debug, Clone, PartialEq, Eq)]
pub struct Dependent {
    pub uid: String,
    pub needs: Vec<String>,
}

impl Dependent {
    pub open spec fn node(self) -> Node {
        Node { uid: self.uid@, needs: texts(self.needs@) }
    }
}

/// The nodes that a list of definitions stands for.
pub open spec fn nodes_of(dependents: Seq<Dependent>) -> Seq<Node> {
    dependents.map_values(|d: Dependent| d.node())
}

/// The kind tags among `objects` that have the syntax of a UUID, in the
/// order of the objects: the uids of the definitions that they instantiate.
pub open spec fn uuid_kinds(objects: Seq<RawObject>) -> Seq<Seq<char>>
    decreases objects.len(),
{
    if objects.len() == 0 {
        Seq::empty()
    } else if uuid_format(objects.last().kind@) {
        uuid_kinds(objects.drop_last()).push(objects.last().kind@)
    } else {
        uuid_kinds(objects.drop_last())
    }
}

/// The nodes that the definitions of a document stand for.
pub open spec fn definition_nodes(definitions: Seq<CustomCircuitWrapper>) -> Seq<Node> {
    definitions.map_values(
        |w: CustomCircuitWrapper| Node { uid: w.uid@, needs: uuid_kinds(w.inner.objects@) },
    )
}

/// The definitions of a document in dependency order.
pub open spec fn ordered_definitions(definitions: Seq<CustomCircuitWrapper>) -> Seq<
    CustomCircuitWrapper,
> {
    emission(definition_nodes(definitions)).map_values(|i: int| definitions[i])
}

/// Whether one of the definitions at the indices `emitted` carries `uid`.
pub open spec fn carried(nodes: Seq<Node>, emitted: Seq<int>, uid: Seq<char>) -> bool {
    exists|k: int| 0 <= k < emitted.len() && nodes[#[trigger] emitted[k]].uid == uid
}

/// Whether every need of definition `i` is carried by an emitted one.
pub open spec fn ready(nodes: Seq<Node>, emitted: Seq<int>, i: int) -> bool {
    forall|j: int|
        0 <= j < nodes[i].needs.len() ==> carried(nodes, emitted, #[trigger] nodes[i].needs[j])
}

/// One pass over the definitions from index `from` on: what has been
/// emitted at its end.
pub open spec fn pass(nodes: Seq<Node>, emitted: Seq<int>, from: int) -> Seq<int>
    decreases nodes.len() - from,
{
    if from < 0 || from >= nodes.len() {
        emitted
    } else if !emitted.contains(from) && ready(nodes, emitted, from) {
        pass(nodes, emitted.push(from), from + 1)
    } else {
        pass(nodes, emitted, from + 1)
    }
}

/// Passes repeated until one emits nothing.
pub open spec fn settle(nodes: Seq<Node>, emitted: Seq<int>) -> Seq<int>
    decreases nodes.len() - emitted.len(),
{
    let next = pass(nodes, emitted, 0);
    if next.len() <= emitted.len() || next.len() > nodes.len() {
        emitted
    } else {
        settle(nodes, next)
    }
}

/// The indices of the definitions in the order in which they are emitted.
pub open spec fn emission(nodes: Seq<Node>) -> Seq<int> {
    settle(nodes, Seq::empty())
}

/// Whether `order` lists distinct definitions, each after definitions that
/// carry all its needs.
pub open spec fn in_dependency_order(nodes: Seq<Node>, order: Seq<int>) -> bool {
    &&& forall|p: int| 0 <= p < order.len() ==> 0 <= #[trigger] order[p] < nodes.len()
    &&& order.no_duplicates()
    &&& forall|p: int| 0 <= p < order.len() ==> ready(nodes, order.take(p), #[trigger] order[p])
}

/// Whether `order` lists every definition once, each after definitions
/// that carry all its needs.
pub open spec fn is_dependency_order(nodes: Seq<Node>, order: Seq<int>) -> bool {
    order.len() == nodes.len() && in_dependency_order(nodes, order)
}

/// Whether the definitions can be put in a dependency order at all.
pub open spec fn orderable(nodes: Seq<Node>) -> bool {
    exists|order: Seq<int>| is_dependency_order(nodes, order)
}

/// The first need of definition `i`, from position `from` on, that no
/// emitted definition carries.
pub open spec fn first_missing(nodes: Seq<Node>, emitted: Seq<int>, i: int, from: int) -> Option<
    Seq<char>,
>
    decreases nodes[i].needs.len() - from,
{
    if from < 0 || from >= nodes[i].needs.len() {
        None
    } else if !carried(nodes, emitted, nodes[i].needs[from]) {
        Some(nodes[i].needs[from])
    } else {
        first_missing(nodes, emitted, i, from + 1)
    }
}

/// The first definition from index `from` on that is still waiting.
pub open spec fn first_waiting(nodes: Seq<Node>, emitted: Seq<int>, from: int) -> Option<int>
    decreases nodes.len() - from,
{
    if from < 0 || from >= nodes.len() {
        None
    } else if !emitted.contains(from) {
        Some(from)
    } else {
        first_waiting(nodes, emitted, from + 1)
    }
}

/// The first definition from index `from` on that is still waiting and
/// carries `uid`.
pub open spec fn first_waiting_with(
    nodes: Seq<Node>,
    emitted: Seq<int>,
    uid: Seq<char>,
    from: int,
) -> Option<int>
    decreases nodes.len() - from,
{
    if from < 0 || from >= nodes.len() {
        None
    } else if !emitted.contains(from) && nodes[from].uid == uid {
        Some(from)
    } else {
        first_waiting_with(nodes, emitted, uid, from + 1)
    }
}

/// The first position from `from` on at which `trail` holds `uid`.
pub open spec fn first_at(trail: Seq<Seq<char>>, uid: Seq<char>, from: int) -> Option<int>
    decreases trail.len() - from,
{
    if from < 0 || from >= trail.len() {
        None
    } else if trail[from] == uid {
        Some(from)
    } else {
        first_at(trail, uid, from + 1)
    }
}

/// Whether definition `i` names its own uid among its needs, and no
/// emitted definition carries that uid.
pub open spec fn needs_itself(nodes: Seq<Node>, emitted: Seq<int>, i: int) -> bool {
    nodes[i].needs.contains(nodes[i].uid) && !carried(nodes, emitted, nodes[i].uid)
}

/// How the walk along the needs ends.
pub enum Walk {
    /// A uid was met for the second time: the uids from its first
    /// occurrence to its second.
    Cycle(Seq<Seq<char>>),
    /// A need was met that no definition carries.
    Lost,
}

/// The walk from definition `at`, with the uids passed so far in `trail`.
/// A definition that needs itself ends the walk at once.
pub open spec fn walk(nodes: Seq<Node>, emitted: Seq<int>, trail: Seq<Seq<char>>, at: int) -> Walk
    decreases nodes.len() - trail.len(),
{
    let uid = nodes[at].uid;
    match first_at(trail, uid, 0) {
        Some(j) => Walk::Cycle(trail.skip(j).push(uid)),
        None => if needs_itself(nodes, emitted, at) {
            Walk::Cycle(seq![uid, uid])
        } else if trail.len() >= nodes.len() {
            Walk::Lost
        } else {
            match first_missing(nodes, emitted, at, 0) {
                None => Walk::Lost,
                Some(need) => match first_waiting_with(nodes, emitted, need, 0) {
                    None => Walk::Lost,
                    Some(next) => walk(nodes, emitted, trail.push(uid), next),
                },
            }
        },
    }
}

/// The walk that is made when definitions are left waiting.
pub open spec fn cycle_search(nodes: Seq<Node>) -> Walk {
    match first_waiting(nodes, emission(nodes), 0) {
        None => Walk::Lost,
        Some(start) => walk(nodes, emission(nodes), Seq::empty(), start),
    }
}

/// Whether some definition that carries `from` names `to` among its needs.
pub open spec fn depends_on(nodes: Seq<Node>, from: Seq<char>, to: Seq<char>) -> bool {
    exists|a: int|
        0 <= a < nodes.len() && (#[trigger] nodes[a]).uid == from && nodes[a].needs.contains(to)
}

/// Whether every uid of `path` but the last depends on the one after it.
pub open spec fn is_chain(nodes: Seq<Node>, path: Seq<Seq<char>>) -> bool {
    forall|k: int| 0 <= k < path.len() - 1 ==> depends_on(nodes, #[trigger] path[k], path[k + 1])
}

/// Whether `path` is a circle of dependencies: a chain that ends on the
/// uid it starts with.
pub open spec fn is_cycle(nodes: Seq<Node>, path: Seq<Seq<char>>) -> bool {
    path.len() >= 2 && path.first() == path.last() && is_chain(nodes, path)
}

/// Distinct indices below `n` are at most `n`, and if they are `n` then
/// every index below `n` is among them.
pub proof fn lemma_distinct_indices(order: Seq<int>, n: int)
    requires
        0 <= n,
        order.no_duplicates(),
        forall|p: int| 0 <= p < order.len() ==> 0 <= #[trigger] order[p] < n,
    ensures
        order.len() <= n,
        order.len() == n ==> forall|i: int| 0 <= i < n ==> order.contains(i),
{
    let range = set_int_range(0, n);
    lemma_int_range(0, n);
    order.unique_seq_to_set();
    assert(order.to_set().subset_of(range)) by {
        assert forall|i: int| order.to_set().contains(i) implies range.contains(i) by {
            let p = choose|p: int| 0 <= p < order.len() && order[p] == i;
            assert(0 <= order[p] < n);
        }
    }
    lemma_len_subset(order.to_set(), range);
    if order.len() == n {
        lemma_subset_equality(order.to_set(), range);
        assert forall|i: int| 0 <= i < n implies order.contains(i) by {
            assert(range.contains(i));
            assert(order.to_set().contains(i));
        }
    }
}

/// A pass keeps what was emitted and adds to it in dependency order. If
/// it adds nothing, then every definition it visited is emitted already
/// or not ready.
pub proof fn lemma_pass(nodes: Seq<Node>, emitted: Seq<int>, from: int)
    requires
        in_dependency_order(nodes, emitted),
        0 <= from <= nodes.len(),
    ensures
        in_dependency_order(nodes, pass(nodes, emitted, from)),
        emitted.len() <= pass(nodes, emitted, from).len(),
        pass(nodes, emitted, from).take(emitted.len() as int) == emitted,
        pass(nodes, emitted, from).len() == emitted.len() ==> forall|i: int|
            from <= i < nodes.len() ==> emitted.contains(i) || !ready(nodes, emitted, i),
    decreases nodes.len() - from,
{
    if from >= nodes.len() {
        assert(emitted.take(emitted.len() as int) =~= emitted);
    } else if !emitted.contains(from) && ready(nodes, emitted, from) {
        let more = emitted.push(from);
        assert(in_dependency_order(nodes, more)) by {
            assert forall|p: int| 0 <= p < more.len() implies ready(
                nodes,
                more.take(p),
                #[trigger] more[p],
            ) by {
                if p < emitted.len() {
                    assert(more.take(p) =~= emitted.take(p));
                    assert(more[p] == emitted[p]);
                } else {
                    assert(more.take(p) =~= emitted);
                }
            }
        }
        lemma_pass(nodes, more, from + 1);
        let result = pass(nodes, more, from + 1);
        assert(result.take(emitted.len() as int) =~= emitted) by {
            assert(result.take(more.len() as int) == more);
            assert forall|k: int| 0 <= k < emitted.len() implies result[k] == emitted[k] by {
                assert(result.take(more.len() as int)[k] == more[k]);
            }
        }
    } else {
        lemma_pass(nodes, emitted, from + 1);
    }
}

/// Repeated passes emit in dependency order, and end when a further pass
/// would emit nothing.
pub proof fn lemma_settle(nodes: Seq<Node>, emitted: Seq<int>)
    requires
        in_dependency_order(nodes, emitted),
    ensures
        in_dependency_order(nodes, settle(nodes, emitted)),
        pass(nodes, settle(nodes, emitted), 0).len() == settle(nodes, emitted).len(),
    decreases nodes.len() - emitted.len(),
{
    let next = pass(nodes, emitted, 0);
    lemma_pass(nodes, emitted, 0);
    lemma_distinct_indices(next, nodes.len() as int);
    if next.len() > emitted.len() {
        lemma_settle(nodes, next);
    }
}

/// Where a pass emits nothing although definitions are waiting, no
/// dependency order exists.
pub proof fn lemma_stuck(nodes: Seq<Node>, emitted: Seq<int>)
    requires
        in_dependency_order(nodes, emitted),
        pass(nodes, emitted, 0).len() == emitted.len(),
        emitted.len() < nodes.len(),
    ensures
        !orderable(nodes),
{
    lemma_pass(nodes, emitted, 0);
    if orderable(nodes) {
        let order = choose|order: Seq<int>| is_dependency_order(nodes, order);
        lemma_prefix_emitted(nodes, emitted, order, order.len() as int);
        lemma_distinct_indices(order, nodes.len() as int);
        assert forall|i: int| 0 <= i < nodes.len() implies emitted.contains(i) by {
            assert(order.contains(i));
            let p = choose|p: int| 0 <= p < order.len() && order[p] == i;
            assert(emitted.contains(order[p]));
        }
        lemma_covering(emitted, nodes.len() as int);
    }
}

/// Distinct indices below `n` that include every index below `n` are `n`.
proof fn lemma_covering(order: Seq<int>, n: int)
    requires
        0 <= n,
        order.no_duplicates(),
        forall|p: int| 0 <= p < order.len() ==> 0 <= #[trigger] order[p] < n,
        forall|i: int| 0 <= i < n ==> order.contains(i),
    ensures
        order.len() == n,
{
    let range = set_int_range(0, n);
    lemma_int_range(0, n);
    order.unique_seq_to_set();
    assert(order.to_set() =~= range) by {
        assert forall|i: int| order.to_set().contains(i) implies range.contains(i) by {
            let p = choose|p: int| 0 <= p < order.len() && order[p] == i;
            assert(0 <= order[p] < n);
        }
        assert forall|i: int| range.contains(i) implies order.to_set().contains(i) by {
            assert(order.contains(i));
        }
    }
}

/// Where no waiting definition is ready, the first `upto` definitions of
/// any dependency order are all emitted.
proof fn lemma_prefix_emitted(nodes: Seq<Node>, emitted: Seq<int>, order: Seq<int>, upto: int)
    requires
        in_dependency_order(nodes, order),
        0 <= upto <= order.len(),
        forall|i: int| 0 <= i < nodes.len() ==> emitted.contains(i) || !ready(nodes, emitted, i),
    ensures
        forall|p: int| 0 <= p < upto ==> emitted.contains(#[trigger] order[p]),
    decreases upto,
{
    if upto > 0 {
        lemma_prefix_emitted(nodes, emitted, order, upto - 1);
        let last = upto - 1;
        let i = order[last];
        assert(0 <= order[last] < nodes.len());
        if !emitted.contains(i) {
            assert(ready(nodes, order.take(last), order[last]));
            assert forall|j: int| 0 <= j < nodes[i].needs.len() implies carried(
                nodes,
                emitted,
                #[trigger] nodes[i].needs[j],
            ) by {
                let need = nodes[i].needs[j];
                assert(carried(nodes, order.take(last), need));
                let k = choose|k: int|
                    0 <= k < order.take(last).len() && nodes[#[trigger] order.take(last)[k]].uid
                        == need;
                assert(order.take(last)[k] == order[k]);
                assert(emitted.contains(order[k]));
                let e = choose|e: int| 0 <= e < emitted.len() && emitted[e] == order[k];
                assert(nodes[emitted[e]].uid == need);
            }
            assert(ready(nodes, emitted, i));
        }
    }
}

/// A dependency order exists exactly when the passes emit every
/// definition, and what they emit is then such an order.
pub proof fn lemma_orderable(nodes: Seq<Node>)
    ensures
        in_dependency_order(nodes, emission(nodes)),
        emission(nodes).len() <= nodes.len(),
        orderable(nodes) <==> emission(nodes).len() == nodes.len(),
{
    let none = Seq::<int>::empty();
    assert(in_dependency_order(nodes, none));
    lemma_settle(nodes, none);
    let order = emission(nodes);
    lemma_distinct_indices(order, nodes.len() as int);
    if order.len() == nodes.len() {
        assert(is_dependency_order(nodes, order));
    } else {
        lemma_stuck(nodes, order);
    }
}

/// What the searches for a first match find, if they find anything.
proof fn lemma_first_missing(nodes: Seq<Node>, emitted: Seq<int>, i: int, from: int)
    requires
        0 <= from,
    ensures
        first_missing(nodes, emitted, i, from) matches Some(need) ==> nodes[i].needs.contains(need)
            && !carried(nodes, emitted, need),
    decreases nodes[i].needs.len() - from,
{
    if from < nodes[i].needs.len() {
        if carried(nodes, emitted, nodes[i].needs[from]) {
            lemma_first_missing(nodes, emitted, i, from + 1);
        }
    }
}

proof fn lemma_first_waiting(nodes: Seq<Node>, emitted: Seq<int>, from: int)
    requires
        0 <= from,
    ensures
        match first_waiting(nodes, emitted, from) {
            Some(found) => from <= found < nodes.len() && !emitted.contains(found),
            None => forall|i: int| from <= i < nodes.len() ==> emitted.contains(i),
        },
    decreases nodes.len() - from,
{
    if from < nodes.len() {
        if emitted.contains(from) {
            lemma_first_waiting(nodes, emitted, from + 1);
        }
    }
}

proof fn lemma_first_waiting_with(nodes: Seq<Node>, emitted: Seq<int>, uid: Seq<char>, from: int)
    requires
        0 <= from,
    ensures
        first_waiting_with(nodes, emitted, uid, from) matches Some(found) ==> from <= found
            < nodes.len() && !emitted.contains(found) && nodes[found].uid == uid,
    decreases nodes.len() - from,
{
    if from < nodes.len() {
        if !(!emitted.contains(from) && nodes[from].uid == uid) {
            lemma_first_waiting_with(nodes, emitted, uid, from + 1);
        }
    }
}

proof fn lemma_first_at(trail: Seq<Seq<char>>, uid: Seq<char>, from: int)
    requires
        0 <= from,
    ensures
        match first_at(trail, uid, from) {
            Some(found) => from <= found < trail.len() && trail[found] == uid,
            None => forall|k: int| from <= k < trail.len() ==> trail[k] != uid,
        },
    decreases trail.len() - from,
{
    if from < trail.len() {
        if trail[from] != uid {
            lemma_first_at(trail, uid, from + 1);
        }
    }
}

/// Whether a list holds a text, read off the search for its first place.
pub proof fn lemma_first_at_found(list: Seq<Seq<char>>, text: Seq<char>)
    ensures
        first_at(list, text, 0) is Some <==> list.contains(text),
{
    lemma_first_at(list, text, 0);
    if first_at(list, text, 0) is Some {
        assert(list[first_at(list, text, 0)->0] == text);
    }
}

/// A walk that follows a chain of dependencies ends, if it ends on a
/// repeated uid, with a circle of dependencies.
pub proof fn lemma_walk(nodes: Seq<Node>, emitted: Seq<int>, trail: Seq<Seq<char>>, at: int)
    requires
        0 <= at < nodes.len(),
        is_chain(nodes, trail),
        trail.len() > 0 ==> depends_on(nodes, trail.last(), nodes[at].uid),
    ensures
        walk(nodes, emitted, trail, at) matches Walk::Cycle(path) ==> is_cycle(nodes, path),
    decreases nodes.len() - trail.len(),
{
    let uid = nodes[at].uid;
    lemma_first_at(trail, uid, 0);
    match first_at(trail, uid, 0) {
        Some(j) => {
            let path = trail.skip(j).push(uid);
            assert forall|k: int| 0 <= k < path.len() - 1 implies depends_on(
                nodes,
                #[trigger] path[k],
                path[k + 1],
            ) by {
                assert(path[k] == trail[j + k]);
                if j + k + 1 < trail.len() {
                    assert(path[k + 1] == trail[j + k + 1]);
                    assert(depends_on(nodes, trail[j + k], trail[j + k + 1]));
                } else {
                    assert(path[k + 1] == uid);
                    assert(trail[j + k] == trail.last());
                }
            }
        },
        None => {
            if needs_itself(nodes, emitted, at) {
                let path = seq![uid, uid];
                assert(nodes[at].uid == uid && nodes[at].needs.contains(uid));
                assert(depends_on(nodes, uid, uid));
                assert(is_chain(nodes, path));
            } else if trail.len() < nodes.len() {
                lemma_first_missing(nodes, emitted, at, 0);
                match first_missing(nodes, emitted, at, 0) {
                    None => {},
                    Some(need) => {
                        lemma_first_waiting_with(nodes, emitted, need, 0);
                        match first_waiting_with(nodes, emitted, need, 0) {
                            None => {},
                            Some(next) => {
                                let longer = trail.push(uid);
                                assert(nodes[at].uid == uid && nodes[at].needs.contains(need));
                                assert(depends_on(nodes, uid, need));
                                assert(is_chain(nodes, longer)) by {
                                    assert forall|k: int| 0 <= k < longer.len() - 1 implies depends_on(
                                        nodes,
                                        #[trigger] longer[k],
                                        longer[k + 1],
                                    ) by {
                                        if k + 1 < trail.len() {
                                            assert(longer[k] == trail[k]);
                                            assert(longer[k + 1] == trail[k + 1]);
                                            assert(depends_on(nodes, trail[k], trail[k + 1]));
                                        } else {
                                            assert(longer[k] == trail.last());
                                            assert(longer[k + 1] == uid);
                                        }
                                    }
                                }
                                assert(longer.last() == uid);
                                lemma_walk(nodes, emitted, longer, next);
                            },
                        }
                    },
                }
            }
        },
    }
}

/// Whatever path the search reports is a circle of dependencies.
pub proof fn lemma_cycle_search(nodes: Seq<Node>)
    ensures
        cycle_search(nodes) matches Walk::Cycle(path) ==> is_cycle(nodes, path),
{
    lemma_first_waiting(nodes, emission(nodes), 0);
    match first_waiting(nodes, emission(nodes), 0) {
        None => {},
        Some(start) => {
            lemma_walk(nodes, emission(nodes), Seq::empty(), start);
        },
    }
}

/// Where the first definition left waiting names its own uid among its
/// needs, the search reports the circle from that uid to itself.
pub proof fn lemma_self_dependency(nodes: Seq<Node>, start: int)
    requires
        first_waiting(nodes, emission(nodes), 0) == Some(start),
        needs_itself(nodes, emission(nodes), start),
    ensures
        cycle_search(nodes) == Walk::Cycle(seq![nodes[start].uid, nodes[start].uid]),
{
}

} // verus!
