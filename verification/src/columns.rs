//! Assignment on two columns of one physical integer type.

use vstd::prelude::*;
use crate::error::AssignError;
use crate::error::ShapeFault;
use crate::event::has_reversed;
use crate::event::is_present;
use crate::event::positions;
use crate::guarantees::has_empty;
use crate::guarantees::is_conflict_free;
use crate::guarantees::uses_fewest_rooms;
use crate::sweep::assign;
use crate::sweep::outcome;

verus! {

/// A column of optional values in its physical representation.
#[derive(Debug)]
pub enum Column {
    Int8(Vec<Option<i8>>),
    Int16(Vec<Option<i16>>),
    Int32(Vec<Option<i32>>),
    Int64(Vec<Option<i64>>),
    UInt8(Vec<Option<u8>>),
    UInt16(Vec<Option<u16>>),
    UInt32(Vec<Option<u32>>),
    UInt64(Vec<Option<u64>>),
    /// A column of any other type, of which only the name of the type is
    /// kept.
    Other(String),
}

/// The physical type of a column.
pub enum PhysicalType {
    Int8,
    Int16,
    Int32,
    Int64,
    UInt8,
    UInt16,
    UInt32,
    UInt64,
    Other(Seq<char>),
}

impl Column {
    /// The physical type of the column.
    pub open spec fn physical_type(&self) -> PhysicalType {
        match self {
            Column::Int8(_) => PhysicalType::Int8,
            Column::Int16(_) => PhysicalType::Int16,
            Column::Int32(_) => PhysicalType::Int32,
            Column::Int64(_) => PhysicalType::Int64,
            Column::UInt8(_) => PhysicalType::UInt8,
            Column::UInt16(_) => PhysicalType::UInt16,
            Column::UInt32(_) => PhysicalType::UInt32,
            Column::UInt64(_) => PhysicalType::UInt64,
            Column::Other(name) => PhysicalType::Other(name@),
        }
    }

    /// The positions of the values of an integer column; nothing for a
    /// column of another type.
    pub open spec fn values(&self) -> Seq<Option<int>> {
        match self {
            Column::Int8(v) => positions(v@),
            Column::Int16(v) => positions(v@),
            Column::Int32(v) => positions(v@),
            Column::Int64(v) => positions(v@),
            Column::UInt8(v) => positions(v@),
            Column::UInt16(v) => positions(v@),
            Column::UInt32(v) => positions(v@),
            Column::UInt64(v) => positions(v@),
            Column::Other(_) => Seq::empty(),
        }
    }

    /// The number of values of an integer column; 0 for a column of another
    /// type.
    pub fn len(&self) -> (n: usize)
        ensures
            n == self.values().len(),
    {
        match self {
            Column::Int8(v) => v.len(),
            Column::Int16(v) => v.len(),
            Column::Int32(v) => v.len(),
            Column::Int64(v) => v.len(),
            Column::UInt8(v) => v.len(),
            Column::UInt16(v) => v.len(),
            Column::UInt32(v) => v.len(),
            Column::UInt64(v) => v.len(),
            Column::Other(_) => 0,
        }
    }
}

/// The options of an assignment.
#[derive(Debug, Clone, Copy)]
pub struct SweepLineKwargs {
    /// Whether two intervals that only touch conflict.
    pub overlapping: bool,
}

/// What is wrong with the shape of the arguments, if anything: the first of
/// a wrong number of columns, two different physical types, a type that is
/// no integer of at most 64 bits, and two different lengths.
pub open spec fn shape_fault(inputs: Seq<Column>) -> Option<ShapeFault> {
    if inputs.len() != 2 {
        Some(ShapeFault::ArgumentCount)
    } else if inputs[0].physical_type() != inputs[1].physical_type() {
        Some(ShapeFault::TypeMismatch)
    } else if inputs[0].physical_type() is Other {
        Some(ShapeFault::UnsupportedType)
    } else if inputs[0].values().len() != inputs[1].values().len() {
        Some(ShapeFault::LengthMismatch)
    } else {
        None
    }
}

/// What a call on columns comes to: the first fault in the shape of the
/// arguments, and else what the assignment on their values comes to.
pub open spec fn column_outcome(inputs: Seq<Column>, overlapping: bool) -> Result<
    Seq<u32>,
    AssignError,
> {
    match shape_fault(inputs) {
        Some(fault) => Err(AssignError::ArgumentShape(fault)),
        None => outcome(inputs[0].values(), inputs[1].values(), overlapping),
    }
}

/// Assigns rooms to the intervals whose starts are the first column and
/// whose ends are the second.
///
/// The call is refused if the arguments are not two equally long columns of
/// one integer type, or if an interval with both endpoints ends before it
/// starts. What `assign` promises of the rooms holds here too.
pub fn sweep_line_assignment(inputs: &[Column], kwargs: SweepLineKwargs) -> (r: Result<
    Vec<u32>,
    AssignError,
>)
    requires
        inputs.len() == 2 ==> inputs[0].values().len() <= u32::MAX,
    ensures
        match r {
            Ok(rooms) => column_outcome(inputs@, kwargs.overlapping) == Ok::<
                Seq<u32>,
                AssignError,
            >(rooms@),
            Err(e) => column_outcome(inputs@, kwargs.overlapping) == Err::<
                Seq<u32>,
                AssignError,
            >(e),
        },
        r matches Ok(rooms) ==> {
            &&& rooms.len() == inputs[0].values().len()
            &&& forall|i: int|
                0 <= i < rooms.len() && !is_present(inputs[0].values(), inputs[1].values(), i)
                    ==> #[trigger] rooms[i] == 0
            &&& kwargs.overlapping || !has_empty(inputs[0].values(), inputs[1].values()) ==> {
                &&& is_conflict_free(
                    inputs[0].values(),
                    inputs[1].values(),
                    kwargs.overlapping,
                    rooms@,
                )
                &&& uses_fewest_rooms(
                    inputs[0].values(),
                    inputs[1].values(),
                    kwargs.overlapping,
                    rooms@,
                )
            }
        },
{
    if inputs.len() != 2 {
        return Err(AssignError::ArgumentShape(ShapeFault::ArgumentCount));
    }
    let mismatch = Err(AssignError::ArgumentShape(ShapeFault::TypeMismatch));
    let overlapping = kwargs.overlapping;
    match &inputs[0] {
        Column::Int8(starts) => match &inputs[1] {
            Column::Int8(ends) => assign(starts.as_slice(), ends.as_slice(), overlapping),
            _ => mismatch,
        },
        Column::Int16(starts) => match &inputs[1] {
            Column::Int16(ends) => assign(starts.as_slice(), ends.as_slice(), overlapping),
            _ => mismatch,
        },
        Column::Int32(starts) => match &inputs[1] {
            Column::Int32(ends) => assign(starts.as_slice(), ends.as_slice(), overlapping),
            _ => mismatch,
        },
        Column::Int64(starts) => match &inputs[1] {
            Column::Int64(ends) => assign(starts.as_slice(), ends.as_slice(), overlapping),
            _ => mismatch,
        },
        Column::UInt8(starts) => match &inputs[1] {
            Column::UInt8(ends) => assign(starts.as_slice(), ends.as_slice(), overlapping),
            _ => mismatch,
        },
        Column::UInt16(starts) => match &inputs[1] {
            Column::UInt16(ends) => assign(starts.as_slice(), ends.as_slice(), overlapping),
            _ => mismatch,
        },
        Column::UInt32(starts) => match &inputs[1] {
            Column::UInt32(ends) => assign(starts.as_slice(), ends.as_slice(), overlapping),
            _ => mismatch,
        },
        Column::UInt64(starts) => match &inputs[1] {
            Column::UInt64(ends) => assign(starts.as_slice(), ends.as_slice(), overlapping),
            _ => mismatch,
        },
        Column::Other(first) => match &inputs[1] {
            Column::Other(second) => {
                if *first == *second {
                    Err(AssignError::ArgumentShape(ShapeFault::UnsupportedType))
                } else {
                    mismatch
                }
            },
            _ => mismatch,
        },
    }
}

} // verus!
