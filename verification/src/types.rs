//! Typed device values and their mathematical models.
//!
//! A property always holds an individual (scalar) value; an aggregate
//! payload in the property cache signals a producer defect.  The empty
//! payload decodes to the explicit `Unset` sentinel, which is distinct
//! from the absence of a row.

use vstd::prelude::*;

verus! {

/// A scalar device value, as stored in a single property.
///
/// `Unset` is the explicit "value was unset" sentinel: it encodes to the
/// empty payload and is a legal content of a stored property.
#[derive(Clone, Debug, PartialEq)]
pub enum AstarteType {
    Unset,
    Boolean(bool),
    Integer(i32),
    LongInteger(i64),
    Binary(Vec<u8>),
}

/// Result of decoding a property payload: either a scalar value or an
/// aggregate (object) payload, which is never legal in the property cache.
#[derive(Clone, Debug, PartialEq)]
pub enum Aggregation {
    Individual(AstarteType),
    Object(Vec<u8>),
}

/// Mathematical model of a scalar value.
pub enum ValueModel {
    Unset,
    Boolean(bool),
    Integer(i32),
    LongInteger(i64),
    Binary(Seq<u8>),
}

/// Mathematical model of a decoded payload.
pub enum AggregationModel {
    Individual(ValueModel),
    Object(Seq<u8>),
}

impl View for AstarteType {
    type V = ValueModel;

    open spec fn view(&self) -> ValueModel {
        match self {
            AstarteType::Unset => ValueModel::Unset,
            AstarteType::Boolean(b) => ValueModel::Boolean(*b),
            AstarteType::Integer(i) => ValueModel::Integer(*i),
            AstarteType::LongInteger(i) => ValueModel::LongInteger(*i),
            AstarteType::Binary(v) => ValueModel::Binary(v@),
        }
    }
}

impl View for Aggregation {
    type V = AggregationModel;

    open spec fn view(&self) -> AggregationModel {
        match self {
            Aggregation::Individual(v) => AggregationModel::Individual(v@),
            Aggregation::Object(b) => AggregationModel::Object(b@),
        }
    }
}

} // verus!
