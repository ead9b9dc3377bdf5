//! Meta-data that tells how a flattened array of values is to be read.
use crate::dimensions::{insert_entry, DimEntry, DimensionValues, PossibleDimensions};
use crate::flags::Flags;
use vstd::prelude::*;

verus! {

/// Holds meta-data that allows the actual data array to be interpreted.
pub struct MetaData {
    /// The dimensions that the data actually "varies by".
    flags: Flags,
    /// The current possible dimensions.
    dims: PossibleDimensions,
}

impl MetaData {
    /// The catalog of possible dimensions.
    pub closed spec fn possible(&self) -> Seq<DimEntry> {
        self.dims@
    }

    /// Which dimensions are in use.
    pub closed spec fn active(&self) -> Seq<bool> {
        self.flags.active()
    }

    /// The run-length recorded for each dimension.
    pub closed spec fn run_lengths(&self) -> Seq<usize> {
        self.flags.strides()
    }

    /// Meta-data for a single dimension with the given values, with no
    /// dimension flagged as in use yet.
    pub fn new(dimension_name: String, dimension_values: Vec<String>) -> (r: MetaData)
        ensures
            r.possible() == seq![(dimension_name@, DimensionValues(dimension_values)@)],
            r.active() == Seq::<bool>::empty(),
            r.run_lengths() == Seq::<usize>::empty(),
    {
        let ghost name = dimension_name@;
        let ghost values = DimensionValues(dimension_values)@;
        let dims = PossibleDimensions::default().add_dimension(dimension_name, dimension_values);
        assert(insert_entry(Seq::<DimEntry>::empty(), name, values) =~= seq![(name, values)]);
        MetaData { flags: Flags::default(), dims }
    }
}

} // verus!
