//! The vocabulary of TSPLIB95 instance files.

#![allow(non_camel_case_types)]

use vstd::prelude::*;

verus! {

/// The keywords that open a data section.
#[derive(Debug, Clone, Copy, PartialEq, Eq, Structural)]
pub enum TSPDataKeyword {
    NODE_COORD_SECTION,
    DEPOT_SECTION,
    DEMAND_SECTION,
    EDGE_DATA_SECTION,
    FIXED_EDGES_SECTION,
    DISPLAY_DATA_SECTION,
    TOUR_SECTION,
    EDGE_WEIGHT_SECTION,
}

/// The entries of the specification part, each with its parsed value.
#[derive(Debug, Clone)]
pub enum TSPSpecificationKeyword {
    NAME(String),
    TYPE(ProblemType),
    COMMENT(String),
    DIMENSION(usize),
    CAPACITY(usize),
    EDGE_WEIGHT_TYPE(EdgeWeightType),
    EDGE_WEIGHT_FORMAT(EdgeWeightFormat),
    EDGE_DATA_FORMAT(EdgeDataFormat),
    NODE_COORD_TYPE(NodeCoordType),
    DISPLAY_DATA_TYPE(DisplayDataType),
    EOF,
}

/// The kind of problem an instance file describes.
#[derive(Debug, Clone, Copy, PartialEq, Eq, Structural)]
pub enum ProblemType {
    TSP,
    ATSP,
    SOP,
    HCP,
    CVRP,
    TOUR,
}

/// How the edge weights of an instance are given.
#[derive(Debug, Clone, Copy, PartialEq, Eq, Structural)]
pub enum EdgeWeightType {
    EXPLICIT,
    EUC_2D,
    EUC_3D,
    MAX_2D,
    MAX_3D,
    MAN_2D,
    MAN_3D,
    CEIL_2D,
    GEO,
    ATT,
    XRAY1,
    XRAY2,
    SPECIAL,
}

/// The layout of explicitly given edge weights.
#[derive(Debug, Clone, Copy, PartialEq, Eq, Structural)]
pub enum EdgeWeightFormat {
    FUNCTION,
    FULL_MATRIX,
    UPPER_ROW,
    LOWER_ROW,
    UPPER_DIAG_ROW,
    LOWER_DIAG_ROW,
    UPPER_COL,
    LOWER_COL,
    UPPER_DIAG_COL,
    LOWER_DIAG_COL,
}

/// The layout of an explicitly given edge list.
#[derive(Debug, Clone, Copy, PartialEq, Eq, Structural)]
pub enum EdgeDataFormat {
    EDGE_LIST,
    ADJ_LIST,
}

/// Whether nodes carry coordinates, and of which dimension.
#[derive(Debug, Clone, Copy, PartialEq, Eq, Structural)]
pub enum NodeCoordType {
    TWOD_COORDS,
    THREED_COORDS,
    NO_COORDS,
}

/// How a graphical display of the nodes is obtained.
#[derive(Debug, Clone, Copy, PartialEq, Eq, Structural)]
pub enum DisplayDataType {
    COORD_DISPLAY,
    TWOD_DISPLAY,
    NO_DISPLAY,
}

} // verus!
