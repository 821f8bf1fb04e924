//! Collecting the entries of the specification part.

use crate::instance::InstanceMetadata;
use crate::parser::metadata::MetaDataParseError;
use crate::tsp_lib_spec::DisplayDataType;
use crate::tsp_lib_spec::EdgeDataFormat;
use crate::tsp_lib_spec::EdgeWeightFormat;
use crate::tsp_lib_spec::EdgeWeightType;
use crate::tsp_lib_spec::NodeCoordType;
use crate::tsp_lib_spec::ProblemType;
use vstd::prelude::*;

verus! {

/// A required entry is missing; the message names it.
#[derive(Debug, Clone, Copy)]
pub struct InstanceMetadataBuilderError(pub &'static str);

/// The entries of the specification part seen so far.
#[derive(Debug)]
pub struct InstanceMetadataBuilder {
    pub name: Option<String>,
    pub problem_type: Option<ProblemType>,
    pub comment: Option<String>,
    pub dimension: Option<usize>,
    pub capacity: Option<usize>,
    pub edge_weight_type: Option<EdgeWeightType>,
    pub edge_weight_format: Option<EdgeWeightFormat>,
    pub edge_data_format: Option<EdgeDataFormat>,
    pub node_coord_type: Option<NodeCoordType>,
    pub display_data_type: Option<DisplayDataType>,
}

impl Default for InstanceMetadataBuilder {
    fn default() -> (res: InstanceMetadataBuilder)
        ensures
            res.is_empty(),
    {
        InstanceMetadataBuilder::new()
    }
}

impl InstanceMetadataBuilder {
    /// No entry has been seen.
    pub open spec fn is_empty(&self) -> bool {
        &&& self.name is None
        &&& self.problem_type is None
        &&& self.comment is None
        &&& self.dimension is None
        &&& self.capacity is None
        &&& self.edge_weight_type is None
        &&& self.edge_weight_format is None
        &&& self.edge_data_format is None
        &&& self.node_coord_type is None
        &&& self.display_data_type is None
    }

    /// The first required entry that is missing, by its message: the name,
    /// the problem type, the dimension and the edge weight type are
    /// required, and are looked for in this order.
    pub open spec fn missing(&self) -> Option<&'static str> {
        if self.name is None {
            Some("name is required")
        } else if self.problem_type is None {
            Some("problem_type is required")
        } else if self.dimension is None {
            Some("dimension is required")
        } else if self.edge_weight_type is None {
            Some("edge_weight_type is required")
        } else {
            None
        }
    }

    /// A builder that has seen no entry.
    pub fn new() -> (res: InstanceMetadataBuilder)
        ensures
            res.is_empty(),
    {
        InstanceMetadataBuilder {
            name: None,
            problem_type: None,
            comment: None,
            dimension: None,
            capacity: None,
            edge_weight_type: None,
            edge_weight_format: None,
            edge_data_format: None,
            node_coord_type: None,
            display_data_type: None,
        }
    }

    /// The metadata, if every required entry has been seen. The node
    /// coordinate type is `NO_COORDS` where none has been seen.
    pub fn build(self) -> (res: Result<InstanceMetadata, MetaDataParseError>)
        ensures
            match res {
                Ok(metadata) => {
                    &&& self.missing() is None
                    &&& self.name == Some(metadata.name)
                    &&& self.problem_type == Some(metadata.problem_type)
                    &&& self.comment == metadata.comment
                    &&& self.dimension == Some(metadata.dimension)
                    &&& self.capacity == metadata.capacity
                    &&& self.edge_weight_type == Some(metadata.edge_weight_type)
                    &&& self.edge_weight_format == metadata.edge_weight_format
                    &&& self.edge_data_format == metadata.edge_data_format
                    &&& metadata.node_coord_type == match self.node_coord_type {
                        Some(kind) => kind,
                        None => NodeCoordType::NO_COORDS,
                    }
                    &&& self.display_data_type == metadata.display_data_type
                },
                Err(MetaDataParseError::InstanceMetadataBuilderError(error)) => self.missing()
                    == Some(error.0),
                Err(_) => false,
            },
    {
        let name = match self.name {
            Some(name) => name,
            None => {
                return Err(
                    MetaDataParseError::InstanceMetadataBuilderError(
                        InstanceMetadataBuilderError("name is required"),
                    ),
                );
            },
        };
        let problem_type = match self.problem_type {
            Some(problem_type) => problem_type,
            None => {
                return Err(
                    MetaDataParseError::InstanceMetadataBuilderError(
                        InstanceMetadataBuilderError("problem_type is required"),
                    ),
                );
            },
        };
        let dimension = match self.dimension {
            Some(dimension) => dimension,
            None => {
                return Err(
                    MetaDataParseError::InstanceMetadataBuilderError(
                        InstanceMetadataBuilderError("dimension is required"),
                    ),
                );
            },
        };
        let edge_weight_type = match self.edge_weight_type {
            Some(edge_weight_type) => edge_weight_type,
            None => {
                return Err(
                    MetaDataParseError::InstanceMetadataBuilderError(
                        InstanceMetadataBuilderError("edge_weight_type is required"),
                    ),
                );
            },
        };
        let node_coord_type = match self.node_coord_type {
            Some(node_coord_type) => node_coord_type,
            None => NodeCoordType::NO_COORDS,
        };
        Ok(
            InstanceMetadata {
                name,
                problem_type,
                comment: self.comment,
                dimension,
                capacity: self.capacity,
                edge_weight_type,
                edge_weight_format: self.edge_weight_format,
                edge_data_format: self.edge_data_format,
                node_coord_type,
                display_data_type: self.display_data_type,
            },
        )
    }

    /// The builder with the name of the instance set.
    pub fn name(self, name: String) -> (res: InstanceMetadataBuilder)
        ensures
            res == (InstanceMetadataBuilder { name: Some(name), ..self }),
    {
        let mut builder = self;
        builder.name = Some(name);
        builder
    }

    /// Sets the name of the instance in place.
    pub fn name_mut(&mut self, name: String) -> (res: &mut InstanceMetadataBuilder)
        ensures
            *res == (InstanceMetadataBuilder { name: Some(name), ..*old(self) }),
            *final(self) == *final(res),
    {
        self.name = Some(name);
        self
    }

    /// The builder with the kind of problem set.
    pub fn problem_type(self, problem_type: ProblemType) -> (res: InstanceMetadataBuilder)
        ensures
            res == (InstanceMetadataBuilder { problem_type: Some(problem_type), ..self }),
    {
        let mut builder = self;
        builder.problem_type = Some(problem_type);
        builder
    }

    /// Sets the kind of problem in place.
    pub fn problem_type_mut(
        &mut self,
        problem_type: ProblemType,
    ) -> (res: &mut InstanceMetadataBuilder)
        ensures
            *res == (InstanceMetadataBuilder { problem_type: Some(problem_type), ..*old(self) }),
            *final(self) == *final(res),
    {
        self.problem_type = Some(problem_type);
        self
    }

    /// The builder with the comment set.
    pub fn comment(self, comment: String) -> (res: InstanceMetadataBuilder)
        ensures
            res == (InstanceMetadataBuilder { comment: Some(comment), ..self }),
    {
        let mut builder = self;
        builder.comment = Some(comment);
        builder
    }

    /// Sets the comment in place.
    pub fn comment_mut(&mut self, comment: String) -> (res: &mut InstanceMetadataBuilder)
        ensures
            *res == (InstanceMetadataBuilder { comment: Some(comment), ..*old(self) }),
            *final(self) == *final(res),
    {
        self.comment = Some(comment);
        self
    }

    /// The builder with the number of nodes set.
    pub fn dimension(self, dimension: usize) -> (res: InstanceMetadataBuilder)
        ensures
            res == (InstanceMetadataBuilder { dimension: Some(dimension), ..self }),
    {
        let mut builder = self;
        builder.dimension = Some(dimension);
        builder
    }

    /// Sets the number of nodes in place.
    pub fn dimension_mut(&mut self, dimension: usize) -> (res: &mut InstanceMetadataBuilder)
        ensures
            *res == (InstanceMetadataBuilder { dimension: Some(dimension), ..*old(self) }),
            *final(self) == *final(res),
    {
        self.dimension = Some(dimension);
        self
    }

    /// The builder with the vehicle capacity set.
    pub fn capacity(self, capacity: usize) -> (res: InstanceMetadataBuilder)
        ensures
            res == (InstanceMetadataBuilder { capacity: Some(capacity), ..self }),
    {
        let mut builder = self;
        builder.capacity = Some(capacity);
        builder
    }

    /// Sets the vehicle capacity in place.
    pub fn capacity_mut(&mut self, capacity: usize) -> (res: &mut InstanceMetadataBuilder)
        ensures
            *res == (InstanceMetadataBuilder { capacity: Some(capacity), ..*old(self) }),
            *final(self) == *final(res),
    {
        self.capacity = Some(capacity);
        self
    }

    /// The builder with how the edge weights are given set.
    pub fn edge_weight_type(
        self,
        edge_weight_type: EdgeWeightType,
    ) -> (res: InstanceMetadataBuilder)
        ensures
            res == (InstanceMetadataBuilder { edge_weight_type: Some(edge_weight_type), ..self }),
    {
        let mut builder = self;
        builder.edge_weight_type = Some(edge_weight_type);
        builder
    }

    /// Sets how the edge weights are given in place.
    pub fn edge_weight_type_mut(
        &mut self,
        edge_weight_type: EdgeWeightType,
    ) -> (res: &mut InstanceMetadataBuilder)
        ensures
            *res == (InstanceMetadataBuilder {
                edge_weight_type: Some(edge_weight_type),
                ..*old(self)
            }),
            *final(self) == *final(res),
    {
        self.edge_weight_type = Some(edge_weight_type);
        self
    }

    /// The builder with the layout of explicit edge weights set.
    pub fn edge_weight_format(
        self,
        edge_weight_format: EdgeWeightFormat,
    ) -> (res: InstanceMetadataBuilder)
        ensures
            res == (InstanceMetadataBuilder {
                edge_weight_format: Some(edge_weight_format),
                ..self
            }),
    {
        let mut builder = self;
        builder.edge_weight_format = Some(edge_weight_format);
        builder
    }

    /// Sets the layout of explicit edge weights in place.
    pub fn edge_weight_format_mut(
        &mut self,
        edge_weight_format: EdgeWeightFormat,
    ) -> (res: &mut InstanceMetadataBuilder)
        ensures
            *res == (InstanceMetadataBuilder {
                edge_weight_format: Some(edge_weight_format),
                ..*old(self)
            }),
            *final(self) == *final(res),
    {
        self.edge_weight_format = Some(edge_weight_format);
        self
    }

    /// The builder with the layout of the edge list set.
    pub fn edge_data_format(
        self,
        edge_data_format: EdgeDataFormat,
    ) -> (res: InstanceMetadataBuilder)
        ensures
            res == (InstanceMetadataBuilder { edge_data_format: Some(edge_data_format), ..self }),
    {
        let mut builder = self;
        builder.edge_data_format = Some(edge_data_format);
        builder
    }

    /// Sets the layout of the edge list in place.
    pub fn edge_data_format_mut(
        &mut self,
        edge_data_format: EdgeDataFormat,
    ) -> (res: &mut InstanceMetadataBuilder)
        ensures
            *res == (InstanceMetadataBuilder {
                edge_data_format: Some(edge_data_format),
                ..*old(self)
            }),
            *final(self) == *final(res),
    {
        self.edge_data_format = Some(edge_data_format);
        self
    }

    /// The builder with the kind of node coordinates set.
    pub fn node_coord_type(self, node_coord_type: NodeCoordType) -> (res: InstanceMetadataBuilder)
        ensures
            res == (InstanceMetadataBuilder { node_coord_type: Some(node_coord_type), ..self }),
    {
        let mut builder = self;
        builder.node_coord_type = Some(node_coord_type);
        builder
    }

    /// Sets the kind of node coordinates in place.
    pub fn node_coord_type_mut(
        &mut self,
        node_coord_type: NodeCoordType,
    ) -> (res: &mut InstanceMetadataBuilder)
        ensures
            *res == (InstanceMetadataBuilder {
                node_coord_type: Some(node_coord_type),
                ..*old(self)
            }),
            *final(self) == *final(res),
    {
        self.node_coord_type = Some(node_coord_type);
        self
    }

    /// The builder with how the display data is obtained set.
    pub fn display_data_type(
        self,
        display_data_type: DisplayDataType,
    ) -> (res: InstanceMetadataBuilder)
        ensures
            res == (InstanceMetadataBuilder { display_data_type: Some(display_data_type), ..self }),
    {
        let mut builder = self;
        builder.display_data_type = Some(display_data_type);
        builder
    }

    /// Sets how the display data is obtained in place.
    pub fn display_data_type_mut(
        &mut self,
        display_data_type: DisplayDataType,
    ) -> (res: &mut InstanceMetadataBuilder)
        ensures
            *res == (InstanceMetadataBuilder {
                display_data_type: Some(display_data_type),
                ..*old(self)
            }),
            *final(self) == *final(res),
    {
        self.display_data_type = Some(display_data_type);
        self
    }
}

} // verus!
