//! Building an object list: every record is read, then every connection
//! is resolved from uids to indices and stored on its target.

use super::classify::{
    classified, classify_failure, described, no_connections, port_count, takes_connections,
};
use super::error::BuildError;
use super::netlist::{Circuit, Connection, CustomCircuit, Object, ObjectInner};
use super::order::{cycle_search, definition_nodes, orderable, ordered_definitions, Walk};
use super::raw::{CustomCircuitWrapper, RawCircuit, RawConnection, RawCustomCircuit, RawObject};
use super::resolver::order_dependency_graph;
use crate::boundary::{texts, uuid_format};
use crate::vecs::reversed;
use vstd::prelude::*;

verus! {

/// The index of the record that carries a uid. Where several carry it,
/// the last one counts.
pub open spec fn find_record(records: Seq<RawObject>, uid: Seq<char>) -> Option<int>
    decreases records.len(),
{
    if records.len() == 0 {
        None
    } else if records.last().uid@ == uid {
        Some(records.len() - 1)
    } else {
        find_record(records.drop_last(), uid)
    }
}

/// Why the record at index `from`, or the first one after it that is
/// refused, is refused.
pub open spec fn first_refusal(
    records: Seq<RawObject>,
    customs: Seq<CustomCircuit>,
    from: int,
) -> Option<BuildError>
    decreases records.len() - from,
{
    if from < 0 || from >= records.len() {
        None
    } else {
        match classify_failure(records[from], uuid_format(records[from].kind@), customs) {
            Some(e) => Some(e),
            None => first_refusal(records, customs, from + 1),
        }
    }
}

/// Why a connection is refused, or `None` if it is accepted: an end that
/// no record carries, a target without input ports, or a port that the
/// target does not have.
pub open spec fn connection_failure(
    records: Seq<RawObject>,
    customs: Seq<CustomCircuit>,
    connection: RawConnection,
) -> Option<BuildError> {
    if find_record(records, connection.output_uid@) is None {
        Some(BuildError::UnknownObject)
    } else {
        match find_record(records, connection.input_uid@) {
            None => Some(BuildError::UnknownObject),
            Some(target) => if !takes_connections(records[target]) {
                Some(BuildError::InvalidConnectionTarget)
            } else if connection.input_index >= port_count(records[target], customs) {
                Some(BuildError::PortOutOfRange)
            } else {
                None
            },
        }
    }
}

/// Why the connection at index `from`, or the first one after it that is
/// refused, is refused.
pub open spec fn first_bad_connection(
    records: Seq<RawObject>,
    customs: Seq<CustomCircuit>,
    connections: Seq<RawConnection>,
    from: int,
) -> Option<BuildError>
    decreases connections.len() - from,
{
    if from < 0 || from >= connections.len() {
        None
    } else {
        match connection_failure(records, customs, connections[from]) {
            Some(e) => Some(e),
            None => first_bad_connection(records, customs, connections, from + 1),
        }
    }
}

/// Why an object list cannot be built, or `None` if it can: the first
/// refused record, or else the first refused connection.
pub open spec fn objects_failure(
    records: Seq<RawObject>,
    connections: Seq<RawConnection>,
    customs: Seq<CustomCircuit>,
) -> Option<BuildError> {
    match first_refusal(records, customs, 0) {
        Some(e) => Some(e),
        None => first_bad_connection(records, customs, connections, 0),
    }
}

/// The source of input port `port` of the object at index `target`: what
/// the last connection onto that port says, or nothing.
pub open spec fn wired(
    records: Seq<RawObject>,
    connections: Seq<RawConnection>,
    target: int,
    port: int,
) -> Connection
    decreases connections.len(),
{
    if connections.len() == 0 {
        None
    } else {
        let last = connections.last();
        if find_record(records, last.input_uid@) == Some(target) && last.input_index == port
            && find_record(records, last.output_uid@) is Some {
            Some((last.output_index, find_record(records, last.output_uid@)->0 as usize))
        } else {
            wired(records, connections.drop_last(), target, port)
        }
    }
}

/// The sources of all input ports of the object at index `target`.
pub open spec fn wiring(
    records: Seq<RawObject>,
    connections: Seq<RawConnection>,
    customs: Seq<CustomCircuit>,
    target: int,
) -> Seq<Connection> {
    Seq::new(
        port_count(records[target], customs),
        |port: int| wired(records, connections, target, port),
    )
}

/// Whether `objects` is the object list that the records and connections
/// describe: one object for each record, in order, with the sources of its
/// input ports resolved.
pub open spec fn objects_built(
    records: Seq<RawObject>,
    connections: Seq<RawConnection>,
    customs: Seq<CustomCircuit>,
    objects: Seq<Object>,
) -> bool {
    &&& objects.len() == records.len()
    &&& forall|i: int|
        0 <= i < records.len() ==> described(
            records[i],
            customs,
            wiring(records, connections, customs, i),
            #[trigger] objects[i],
        )
}

/// Looks up the object that carries a uid; the last one, where several
/// carry it.
fn lookup_object(objects: &Vec<Object>, records: Ghost<Seq<RawObject>>, uid: &str) -> (found:
    Option<usize>)
    requires
        objects.len() == records@.len(),
        forall|i: int| 0 <= i < objects.len() ==> (#[trigger] objects[i]).uid == records@[i].uid,
    ensures
        match found {
            Some(at) => find_record(records@, uid@) == Some(at as int) && at < objects.len(),
            None => find_record(records@, uid@) is None,
        },
{
    let mut at: usize = objects.len();
    proof {
        assert(records@.take(at as int) =~= records@);
    }
    while at > 0
        invariant
            at <= objects.len(),
            objects.len() == records@.len(),
            forall|i: int| 0 <= i < objects.len() ==> (#[trigger] objects[i]).uid == records@[i].uid,
            find_record(records@, uid@) == find_record(records@.take(at as int), uid@),
        decreases at,
    {
        proof {
            assert(records@.take(at as int).drop_last() =~= records@.take(at - 1));
            assert(objects[at - 1].uid == records@[at - 1].uid);
        }
        if objects[at - 1].uid.as_str().eq(uid) {
            return Some(at - 1);
        }
        at = at - 1;
    }
    None
}

/// Stores a source on input port `port` of `object`.
fn connect(object: &mut Object, port: u32, source: (u32, usize)) -> (res: Result<(), BuildError>)
    ensures
        match res {
            Ok(_) => old(object).inner.has_input_ports() && port < old(object).inner.slots().len()
                && final(object).inner.slots() == old(object).inner.slots().update(
                port as int,
                Some(source),
            ),
            Err(e) => *final(object) == *old(object) && e == if !old(
                object,
            ).inner.has_input_ports() {
                BuildError::InvalidConnectionTarget
            } else {
                BuildError::PortOutOfRange
            } && (old(object).inner.has_input_ports() ==> port >= old(object).inner.slots().len()),
        },
        final(object).uid == old(object).uid,
        final(object).x == old(object).x,
        final(object).y == old(object).y,
        final(object).rotation == old(object).rotation,
        match (old(object).inner, final(object).inner) {
            (
                ObjectInner::SimpleGate { xor_type: a, kind: b, .. },
                ObjectInner::SimpleGate { xor_type: c, kind: d, .. },
            ) => a == c && b == d,
            (
                ObjectInner::CustomGate { uuid: a, num_outputs: b, .. },
                ObjectInner::CustomGate { uuid: c, num_outputs: d, .. },
            ) => a == c && b == d,
            (
                ObjectInner::Output { export_name: a, .. },
                ObjectInner::Output { export_name: c, .. },
            ) => a == c,
            (ObjectInner::Input { .. }, ObjectInner::Input { .. }) => final(object).inner == old(
                object,
            ).inner,
            (ObjectInner::Label { .. }, ObjectInner::Label { .. }) => final(object).inner == old(
                object,
            ).inner,
            _ => false,
        },
{
    match &mut object.inner {
        ObjectInner::SimpleGate { connections, .. } => {
            if (port as usize) < connections.len() {
                connections[port as usize] = Some(source);
                Ok(())
            } else {
                Err(BuildError::PortOutOfRange)
            }
        },
        ObjectInner::CustomGate { connections, .. } => {
            if (port as usize) < connections.len() {
                connections[port as usize] = Some(source);
                Ok(())
            } else {
                Err(BuildError::PortOutOfRange)
            }
        },
        ObjectInner::Output { connections, .. } => {
            if (port as usize) < connections.len() {
                connections[port as usize] = Some(source);
                Ok(())
            } else {
                Err(BuildError::PortOutOfRange)
            }
        },
        ObjectInner::Input { .. } => Err(BuildError::InvalidConnectionTarget),
        ObjectInner::Label { .. } => Err(BuildError::InvalidConnectionTarget),
    }
}

/// What one more connection does to the wiring: the port it ends on gets
/// its source, and every other port keeps what it had.
proof fn lemma_wiring_step(
    records: Seq<RawObject>,
    connections: Seq<RawConnection>,
    customs: Seq<CustomCircuit>,
    k: int,
    i: int,
)
    requires
        0 <= k < connections.len(),
        connection_failure(records, customs, connections[k]) is None,
    ensures
        wiring(records, connections.take(k + 1), customs, i) == if find_record(
            records,
            connections[k].input_uid@,
        ) == Some(i) {
            wiring(records, connections.take(k), customs, i).update(
                connections[k].input_index as int,
                Some(
                    (
                        connections[k].output_index,
                        find_record(records, connections[k].output_uid@)->0 as usize,
                    ),
                ),
            )
        } else {
            wiring(records, connections.take(k), customs, i)
        },
{
    let longer = connections.take(k + 1);
    assert(longer.last() == connections[k]);
    assert(longer.drop_last() =~= connections.take(k));
    if find_record(records, connections[k].input_uid@) == Some(i) {
        assert(wiring(records, longer, customs, i) =~= wiring(
            records,
            connections.take(k),
            customs,
            i,
        ).update(
            connections[k].input_index as int,
            Some(
                (
                    connections[k].output_index,
                    find_record(records, connections[k].output_uid@)->0 as usize,
                ),
            ),
        ));
    } else {
        assert(wiring(records, longer, customs, i) =~= wiring(
            records,
            connections.take(k),
            customs,
            i,
        ));
    }
}

/// The last connection onto a port is what the port holds: an accepted
/// connection that no later connection onto the same port follows can be
/// read off the port of its target.
pub proof fn lemma_connection_observable(
    records: Seq<RawObject>,
    connections: Seq<RawConnection>,
    k: int,
    target: int,
)
    requires
        0 <= k < connections.len(),
        find_record(records, connections[k].output_uid@) is Some,
        find_record(records, connections[k].input_uid@) == Some(target),
        forall|j: int|
            k < j < connections.len() ==> !(find_record(
                records,
                (#[trigger] connections[j]).input_uid@,
            ) == Some(target) && connections[j].input_index == connections[k].input_index),
    ensures
        wired(records, connections, target, connections[k].input_index as int) == Some(
            (
                connections[k].output_index,
                find_record(records, connections[k].output_uid@)->0 as usize,
            ),
        ),
    decreases connections.len(),
{
    if k < connections.len() - 1 {
        let fewer = connections.drop_last();
        assert(fewer[k] == connections[k]);
        assert forall|j: int| k < j < fewer.len() implies !(find_record(
            records,
            (#[trigger] fewer[j]).input_uid@,
        ) == Some(target) && fewer[j].input_index == fewer[k].input_index) by {
            assert(fewer[j] == connections[j]);
        }
        lemma_connection_observable(records, fewer, k, target);
    }
}

/// An object that a record describes has input ports exactly when the
/// kind of the record has them, and then as many as the kind says.
proof fn lemma_described_ports(
    raw: RawObject,
    customs: Seq<CustomCircuit>,
    slots: Seq<Connection>,
    object: Object,
)
    requires
        described(raw, customs, slots, object),
    ensures
        object.inner.has_input_ports() == takes_connections(raw),
        takes_connections(raw) ==> object.inner.slots() == slots,
        slots.len() == port_count(raw, customs),
{
}

impl Circuit {
    /// Builds an object list: reads every record, then resolves every
    /// connection and stores it on its target. Of several objects with one
    /// uid, a connection means the last; of several connections onto one
    /// port, the last stays.
    pub fn process_objects(
        objects: Vec<RawObject>,
        connections: Vec<RawConnection>,
        customs: &Vec<CustomCircuit>,
    ) -> (res: Result<Vec<Object>, BuildError>)
        ensures
            match res {
                Ok(built) => objects_failure(objects@, connections@, customs@) is None
                    && objects_built(objects@, connections@, customs@, built@),
                Err(e) => objects_failure(objects@, connections@, customs@) == Some(e),
            },
    {
        let ghost records = objects@;
        let n = objects.len();
        let mut pending = reversed(objects);
        let mut built: Vec<Object> = Vec::new();
        while built.len() < n
            invariant
                records == objects@,
                n == records.len(),
                built.len() + pending.len() == n,
                pending@ == records.reverse().take(pending.len() as int),
                forall|i: int|
                    0 <= i < built.len() ==> classified(records[i], customs@, #[trigger] built[i]),
                first_refusal(records, customs@, 0) == first_refusal(
                    records,
                    customs@,
                    built.len() as int,
                ),
            decreases n - built.len(),
        {
            let ghost waiting = pending@;
            let raw = pending.pop().unwrap();
            proof {
                assert(raw == records[built.len() as int]);
                assert(pending@ =~= records.reverse().take(pending.len() as int));
            }
            match Object::try_from(raw, customs) {
                Ok(object) => {
                    built.push(object);
                },
                Err(e) => {
                    proof {
                        assert(first_refusal(records, customs@, built.len() as int) == Some(e));
                    }
                    return Err(e);
                },
            }
        }
        let mut k: usize = 0;
        proof {
            assert forall|i: int| 0 <= i < n implies described(
                records[i],
                customs@,
                wiring(records, connections@.take(0), customs@, i),
                #[trigger] built[i],
            ) by {
                assert(classified(records[i], customs@, built[i]));
                assert(wiring(records, connections@.take(0), customs@, i) =~= no_connections(
                    port_count(records[i], customs@),
                ));
            }
        }
        while k < connections.len()
            invariant
                k <= connections.len(),
                records == objects@,
                n == records.len(),
                built.len() == n,
                first_refusal(records, customs@, 0) is None,
                forall|i: int|
                    0 <= i < n ==> described(
                        records[i],
                        customs@,
                        wiring(records, connections@.take(k as int), customs@, i),
                        #[trigger] built[i],
                    ),
                first_bad_connection(records, customs@, connections@, 0) == first_bad_connection(
                    records,
                    customs@,
                    connections@,
                    k as int,
                ),
            decreases connections.len() - k,
        {
            let connection = &connections[k];
            let source = match lookup_object(
                &built,
                Ghost(records),
                connection.output_uid.as_str(),
            ) {
                Some(source) => source,
                None => {
                    return Err(BuildError::UnknownObject);
                },
            };
            let target = match lookup_object(
                &built,
                Ghost(records),
                connection.input_uid.as_str(),
            ) {
                Some(target) => target,
                None => {
                    return Err(BuildError::UnknownObject);
                },
            };
            let ghost before = built@;
            proof {
                lemma_described_ports(
                    records[target as int],
                    customs@,
                    wiring(records, connections@.take(k as int), customs@, target as int),
                    before[target as int],
                );
            }
            match connect(&mut built[target], connection.input_index, (connection.output_index, source)) {
                Ok(_) => {
                    proof {
                        assert(connection_failure(records, customs@, connections@[k as int]) is None);
                    }
                },
                Err(e) => {
                    proof {
                        assert(connection_failure(records, customs@, connections@[k as int])
                            == Some(e));
                    }
                    return Err(e);
                },
            }
            proof {
                assert forall|i: int| 0 <= i < n implies described(
                    records[i],
                    customs@,
                    wiring(records, connections@.take(k + 1), customs@, i),
                    #[trigger] built[i],
                ) by {
                    lemma_wiring_step(records, connections@, customs@, k as int, i);
                    if i != target {
                        assert(built[i] == before[i]);
                        assert(described(
                            records[i],
                            customs@,
                            wiring(records, connections@.take(k as int), customs@, i),
                            before[i],
                        ));
                    }
                }
            }
            k = k + 1;
        }
        proof {
            assert(connections@.take(k as int) =~= connections@);
        }
        Ok(built)
    }
}

/// Whether `custom` is the sub-circuit that a definition describes, when
/// its instances are read against the sub-circuits `earlier`.
pub open spec fn custom_built(
    definition: CustomCircuitWrapper,
    earlier: Seq<CustomCircuit>,
    custom: CustomCircuit,
) -> bool {
    &&& custom.name == definition.name
    &&& custom.uid == definition.uid
    &&& custom.label == definition.label
    &&& custom.locations == definition.inner.locations
    &&& objects_built(
        definition.inner.objects@,
        definition.inner.connections@,
        earlier,
        custom.objects@,
    )
}

/// Whether `customs` are the sub-circuits that the definitions describe,
/// each read against those before it.
pub open spec fn customs_built(
    definitions: Seq<CustomCircuitWrapper>,
    customs: Seq<CustomCircuit>,
) -> bool {
    &&& customs.len() == definitions.len()
    &&& forall|k: int|
        0 <= k < definitions.len() ==> custom_built(
            definitions[k],
            customs.take(k),
            #[trigger] customs[k],
        )
}

/// Whether `e` is the failure with which the build of a document ends:
/// that of the ordering of its definitions, else that of the first
/// definition in dependency order whose objects cannot be built, else that
/// of the top-level objects.
pub open spec fn build_failure(raw: RawCircuit, e: BuildError) -> bool {
    match raw.customs {
        None => objects_failure(raw.objects@, raw.connections@, Seq::empty()) == Some(e),
        Some(definitions) => {
            let nodes = definition_nodes(definitions@);
            let ordered = ordered_definitions(definitions@);
            if !orderable(nodes) {
                match e {
                    BuildError::DependencyCycle(path) => cycle_search(nodes) == Walk::Cycle(
                        texts(path@),
                    ),
                    BuildError::CycleNotFound => cycle_search(nodes) is Lost,
                    _ => false,
                }
            } else {
                exists|customs: Seq<CustomCircuit>|
                    {
                        &&& customs.len() <= ordered.len()
                        &&& #[trigger] customs_built(ordered.take(customs.len() as int), customs)
                        &&& if customs.len() < ordered.len() {
                            objects_failure(
                                ordered[customs.len() as int].inner.objects@,
                                ordered[customs.len() as int].inner.connections@,
                                customs,
                            ) == Some(e)
                        } else {
                            objects_failure(raw.objects@, raw.connections@, customs) == Some(e)
                        }
                    }
            }
        },
    }
}

/// Whether `circuit` is the circuit that a document describes.
pub open spec fn circuit_built(raw: RawCircuit, circuit: Circuit) -> bool {
    match raw.customs {
        None => circuit.customs is None && objects_built(
            raw.objects@,
            raw.connections@,
            Seq::empty(),
            circuit.objects@,
        ),
        Some(definitions) => {
            &&& circuit.customs matches Some(customs)
            &&& orderable(definition_nodes(definitions@))
            &&& customs_built(ordered_definitions(definitions@), customs@)
            &&& objects_built(raw.objects@, raw.connections@, customs@, circuit.objects@)
        },
    }
}

impl CustomCircuit {
    /// Builds a sub-circuit from its definition. Its instances are read
    /// against `customs`, the sub-circuits built before it.
    pub fn try_from(definition: CustomCircuitWrapper, customs: &Vec<CustomCircuit>) -> (res: Result<
        CustomCircuit,
        BuildError,
    >)
        ensures
            match res {
                Ok(custom) => objects_failure(
                    definition.inner.objects@,
                    definition.inner.connections@,
                    customs@,
                ) is None && custom_built(definition, customs@, custom),
                Err(e) => objects_failure(
                    definition.inner.objects@,
                    definition.inner.connections@,
                    customs@,
                ) == Some(e),
            },
    {
        let CustomCircuitWrapper { name, uid, label, inner } = definition;
        let RawCustomCircuit { objects, connections, locations } = inner;
        match Circuit::process_objects(objects, connections, customs) {
            Ok(objects) => Ok(CustomCircuit { objects, name, uid, label, locations }),
            Err(e) => Err(e),
        }
    }
}

impl Circuit {
    /// Builds the circuit that a document describes: its definitions are
    /// put in dependency order and built one after another, each against
    /// those before it, and then the top-level objects against all of
    /// them. Any failure ends the build.
    pub fn try_from(raw: RawCircuit) -> (res: Result<Circuit, BuildError>)
        ensures
            match res {
                Ok(circuit) => circuit_built(raw, circuit),
                Err(e) => build_failure(raw, e),
            },
    {
        let RawCircuit { xmlns: _, objects, connections, settings: _, customs } = raw;
        match customs {
            None => {
                let none: Vec<CustomCircuit> = Vec::new();
                match Circuit::process_objects(objects, connections, &none) {
                    Ok(objects) => Ok(Circuit { objects, customs: None }),
                    Err(e) => Err(e),
                }
            },
            Some(definitions) => {
                let ghost given = definitions@;
                let ordered = match order_dependency_graph(definitions) {
                    Ok(ordered) => ordered,
                    Err(e) => {
                        return Err(e);
                    },
                };
                let ghost sorted = ordered@;
                let total = ordered.len();
                proof {
                    assert(sorted == ordered_definitions(given));
                }
                let mut pending = reversed(ordered);
                let mut built: Vec<CustomCircuit> = Vec::new();
                while built.len() < total
                    invariant
                        raw.customs == Some(definitions),
                        given == definitions@,
                        orderable(definition_nodes(given)),
                        sorted == ordered_definitions(given),
                        total == sorted.len(),
                        built.len() + pending.len() == total,
                        pending@ == sorted.reverse().take(pending.len() as int),
                        customs_built(sorted.take(built.len() as int), built@),
                    decreases total - built.len(),
                {
                    let definition = pending.pop().unwrap();
                    let ghost earlier = built@;
                    proof {
                        assert(definition == sorted[built.len() as int]);
                        assert(pending@ =~= sorted.reverse().take(pending.len() as int));
                    }
                    match CustomCircuit::try_from(definition, &built) {
                        Ok(custom) => {
                            built.push(custom);
                            proof {
                                let defs = sorted.take(built.len() as int);
                                assert forall|k: int| 0 <= k < defs.len() implies custom_built(
                                    defs[k],
                                    built@.take(k),
                                    #[trigger] built@[k],
                                ) by {
                                    if k < earlier.len() {
                                        assert(built@.take(k) =~= earlier.take(k));
                                        assert(built@[k] == earlier[k]);
                                        assert(sorted.take(earlier.len() as int)[k] == defs[k]);
                                    } else {
                                        assert(built@.take(k) =~= earlier);
                                    }
                                }
                            }
                        },
                        Err(e) => {
                            proof {
                                assert(customs_built(sorted.take(earlier.len() as int), earlier));
                            }
                            return Err(e);
                        },
                    }
                }
                proof {
                    assert(sorted.take(built.len() as int) =~= sorted);
                }
                match Circuit::process_objects(objects, connections, &built) {
                    Ok(objects) => Ok(Circuit { objects, customs: Some(built) }),
                    Err(e) => {
                        proof {
                            assert(customs_built(sorted.take(built.len() as int), built@));
                        }
                        Err(e)
                    },
                }
            },
        }
    }
}

} // verus!
