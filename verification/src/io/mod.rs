//! From loosely typed records to a validated netlist.

pub mod classify;
pub mod connect;
pub mod error;
pub mod netlist;
pub mod order;
pub mod raw;
pub mod resolver;
pub mod show;

pub use error::{BuildError, ErrorKind};
pub use netlist::{
    Circuit, Connection, CustomCircuit, InputType, Object, ObjectInner, Rotation, SimpleGateType,
    XorType,
};
pub use order::Dependent;
pub use raw::{
    CustomCircuitWrapper, Location, RawCircuit, RawConnection, RawCustomCircuit, RawObject, Setting,
};
pub use resolver::{dependency_order, order_dependency_graph};
