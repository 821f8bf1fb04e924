//! A problem instance: what its file says about it, and its distances.

use crate::distance::Distance;
use crate::matrix_sym::triangle;
use crate::matrix_sym::EdgeDataMatrixSym;
use crate::tsp_lib_spec::DisplayDataType;
use crate::tsp_lib_spec::EdgeDataFormat;
use crate::tsp_lib_spec::EdgeWeightFormat;
use crate::tsp_lib_spec::EdgeWeightType;
use crate::tsp_lib_spec::NodeCoordType;
use crate::tsp_lib_spec::ProblemType;
use vstd::prelude::*;

verus! {

/// The specification part of an instance file.
#[derive(Debug, Clone)]
pub struct InstanceMetadata {
    pub name: String,
    pub problem_type: ProblemType,
    pub comment: Option<String>,
    /// The number of nodes.
    pub dimension: usize,
    pub capacity: Option<usize>,
    pub edge_weight_type: EdgeWeightType,
    pub edge_weight_format: Option<EdgeWeightFormat>,
    pub edge_data_format: Option<EdgeDataFormat>,
    /// `NO_COORDS` where the file does not say.
    pub node_coord_type: NodeCoordType,
    pub display_data_type: Option<DisplayDataType>,
}

/// An instance of the symmetric problem: its metadata and the lower
/// triangle of its distance matrix.
#[derive(Debug, Clone)]
pub struct TSPSymInstance {
    pub metadata: InstanceMetadata,
    pub distances: EdgeDataMatrixSym<Distance>,
}

impl TSPSymInstance {
    /// The distance matrix has the dimension that the metadata gives.
    pub open spec fn wf(&self) -> bool {
        &&& self.distances.wf()
        &&& self.distances.dimension == self.metadata.dimension
    }

    /// An instance from the cells of the lower triangle, row by row.
    pub fn new_from_raw_data(distance_data: Vec<Distance>, metadata: InstanceMetadata) -> (res:
        TSPSymInstance)
        requires
            metadata.dimension * (metadata.dimension + 1) <= usize::MAX,
            distance_data@.len() == triangle(metadata.dimension as int),
        ensures
            res.wf(),
            res.metadata == metadata,
            res.distances.data == distance_data,
    {
        let dimension = metadata.dimension;
        TSPSymInstance { metadata, distances: EdgeDataMatrixSym::new(distance_data, dimension) }
    }

    /// An instance from a distance matrix.
    pub fn new_from_distances_sym(
        distances: EdgeDataMatrixSym<Distance>,
        metadata: InstanceMetadata,
    ) -> (res: TSPSymInstance)
        ensures
            res.metadata == metadata,
            res.distances == distances,
    {
        TSPSymInstance { metadata, distances }
    }

    /// What the file says about the instance.
    pub fn metadata(&self) -> (res: &InstanceMetadata)
        ensures
            *res == self.metadata,
    {
        &self.metadata
    }

    /// The distance matrix.
    pub fn distances(&self) -> (res: &EdgeDataMatrixSym<Distance>)
        ensures
            *res == self.distances,
    {
        &self.distances
    }

    /// The cells of the lower triangle of the distance matrix, row by row.
    pub fn raw_distances(&self) -> (res: &[Distance])
        ensures
            res@ == self.distances.data@,
    {
        self.distances.data.as_slice()
    }
}

} // verus!
