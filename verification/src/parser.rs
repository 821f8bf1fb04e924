//! Reading TSPLIB95 instance files: the specification part, the coordinate
//! section, and the distance matrix computed from the coordinates.

pub mod data_section;
pub mod distance_container;
pub mod metadata;
pub mod metadata_builder;
pub mod text;

use crate::instance::InstanceMetadata;
use crate::parser::data_section::coordinates_of;
use crate::parser::data_section::obstacle;
use crate::parser::data_section::parse_data_sections;
use crate::parser::data_section::section_lines;
use crate::parser::data_section::writes_decimals;
use crate::parser::data_section::NodeCoordSection;
use crate::parser::metadata::describes;
use crate::parser::metadata::parse_metadata;
use crate::parser::metadata::read_header;
use crate::parser::metadata::tells;
use crate::parser::metadata::MetaDataParseError;
use crate::parser::text::lossy_text;
use crate::tsp_lib_spec::EdgeWeightType;
use crate::tsp_lib_spec::ProblemType;
use crate::tsp_lib_spec::TSPDataKeyword;
use vstd::prelude::*;

verus! {

/// What the library does not read.
#[derive(Debug, Clone, Copy, PartialEq, Eq, Structural)]
pub enum Unimplemented {
    /// A problem type other than `TSP`.
    ProblemType(ProblemType),
    /// An edge weight type that is not computed from coordinates.
    EdgeWeightType(EdgeWeightType),
    /// A data section other than the node coordinates.
    DataSection(TSPDataKeyword),
}

/// Why an instance could not be read.
#[derive(Debug)]
pub enum ParserError {
    /// The specification part is faulty.
    MetaDataParsing(MetaDataParseError),
    /// The file asks for something that the library does not read.
    Unimplemented(Unimplemented),
}

/// Reads the text of an instance file: the specification part from the
/// start of `file_content`, and the node coordinate section behind it.
///
/// Returns the metadata and the places of the coordinates of each node. A
/// fault in the specification part is reported first, a fixed edges
/// section among them; then what the metadata asks for that is not read;
/// then a line of the coordinate section that lacks a coordinate.
pub fn scan_tsp_instance(file_content: &[u8]) -> (res: Result<
    (InstanceMetadata, NodeCoordSection),
    ParserError,
>)
    ensures
        match read_header(file_content@, 0) {
            Err((fault, _)) => res matches Err(error) && tells(error, fault),
            Ok((draft, keyword, data_start)) => match res {
                Ok((metadata, section)) => {
                    &&& describes(metadata, draft)
                    &&& obstacle(metadata.problem_type, metadata.edge_weight_type, keyword) is None
                    &&& section.spatial == coordinates_of(metadata.edge_weight_type)->0
                    &&& section.decimal == writes_decimals(
                        file_content@,
                        data_start,
                        section.spatial,
                    )
                    &&& section_lines(file_content@, data_start, section.spatial, Seq::empty())
                        matches Ok((lines, _)) && section.lines@ == lines
                },
                Err(ParserError::Unimplemented(what)) => obstacle(
                    draft.problem_type->0,
                    draft.edge_weight_type->0,
                    keyword,
                ) == Some(what),
                Err(ParserError::MetaDataParsing(MetaDataParseError::InvalidInput(text))) => {
                    &&& obstacle(draft.problem_type->0, draft.edge_weight_type->0, keyword) is None
                    &&& section_lines(
                        file_content@,
                        data_start,
                        coordinates_of(draft.edge_weight_type->0)->0,
                        Seq::empty(),
                    ) matches Err((line, _)) && text@ == lossy_text(line)
                },
                Err(_) => false,
            },
        },
{
    let mut index_in_map: usize = 0;
    let (metadata, data_keyword) = match parse_metadata(file_content, &mut index_in_map) {
        Ok(found) => found,
        Err(error) => {
            return Err(error);
        },
    };
    match parse_data_sections(file_content, &mut index_in_map, data_keyword, &metadata) {
        Ok(section) => Ok((metadata, section)),
        Err(error) => Err(error),
    }
}

} // verus!
