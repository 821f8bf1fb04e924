//! The specification part of an instance file: `KEY : VALUE` lines up to
//! the keyword that opens the data part.

use crate::instance::InstanceMetadata;
use crate::parser::metadata_builder::InstanceMetadataBuilder;
use crate::parser::metadata_builder::InstanceMetadataBuilderError;
use crate::parser::text::decimal_number;
use crate::parser::text::find_line_end;
use crate::parser::text::is_word;
use crate::parser::text::find_byte;
use crate::parser::text::lemma_line_end;
use crate::parser::text::position_of;
use crate::parser::text::line_end;
use crate::parser::text::lossy_text;
use crate::parser::text::parse_decimal;
use crate::parser::text::text_of;
use crate::parser::text::trim;
use crate::parser::text::trimmed;
use crate::parser::ParserError;
use crate::parser::Unimplemented;
use crate::tsp_lib_spec::DisplayDataType;
use crate::tsp_lib_spec::EdgeDataFormat;
use crate::tsp_lib_spec::EdgeWeightFormat;
use crate::tsp_lib_spec::EdgeWeightType;
use crate::tsp_lib_spec::NodeCoordType;
use crate::tsp_lib_spec::ProblemType;
use crate::tsp_lib_spec::TSPDataKeyword;
use vstd::prelude::*;
use vstd::string::StringSliceAdditionalSpecFns;

verus! {

/// Why the specification part could not be read. Each variant but the last
/// carries the offending text.
#[derive(Debug)]
pub enum MetaDataParseError {
    /// A malformed line, or the end of the input inside the specification
    /// part.
    InvalidInput(String),
    /// A keyword that the format does not know.
    InvalidKeyword(String),
    InvalidProblemType(String),
    InvalidDimension(String),
    InvalidCapacity(String),
    InvalidEdgeWeightType(String),
    InvalidEdgeWeightFormat(String),
    InvalidEdgeDataFormat(String),
    InvalidNodeCoordType(String),
    InvalidDisplayDataType(String),
    /// A required entry is missing.
    InstanceMetadataBuilderError(InstanceMetadataBuilderError),
}

/// What is wrong with a specification part, with the offending bytes.
pub enum HeaderFault {
    /// The input ends inside the specification part.
    UnexpectedEnd,
    InvalidKeyword(Seq<u8>),
    InvalidProblemType(Seq<u8>),
    InvalidDimension(Seq<u8>),
    InvalidCapacity(Seq<u8>),
    InvalidEdgeWeightType(Seq<u8>),
    InvalidEdgeWeightFormat(Seq<u8>),
    InvalidEdgeDataFormat(Seq<u8>),
    InvalidNodeCoordType(Seq<u8>),
    InvalidDisplayDataType(Seq<u8>),
    /// A required entry is missing; the message names it.
    Missing(&'static str),
    /// The specification part names something that is not read.
    Unimplemented(Unimplemented),
}

/// Whether `error` reports the fault `fault`, with the offending bytes as
/// text.
pub open spec fn reports(error: MetaDataParseError, fault: HeaderFault) -> bool {
    match (error, fault) {
        (MetaDataParseError::InvalidInput(text), HeaderFault::UnexpectedEnd) => text@
            == "Unexpected end of file"@,
        (MetaDataParseError::InvalidKeyword(text), HeaderFault::InvalidKeyword(bytes)) => text@
            == lossy_text(bytes),
        (
            MetaDataParseError::InvalidProblemType(text),
            HeaderFault::InvalidProblemType(bytes),
        ) => text@ == lossy_text(bytes),
        (MetaDataParseError::InvalidDimension(text), HeaderFault::InvalidDimension(bytes)) => text@
            == lossy_text(bytes),
        (MetaDataParseError::InvalidCapacity(text), HeaderFault::InvalidCapacity(bytes)) => text@
            == lossy_text(bytes),
        (
            MetaDataParseError::InvalidEdgeWeightType(text),
            HeaderFault::InvalidEdgeWeightType(bytes),
        ) => text@ == lossy_text(bytes),
        (
            MetaDataParseError::InvalidEdgeWeightFormat(text),
            HeaderFault::InvalidEdgeWeightFormat(bytes),
        ) => text@ == lossy_text(bytes),
        (
            MetaDataParseError::InvalidEdgeDataFormat(text),
            HeaderFault::InvalidEdgeDataFormat(bytes),
        ) => text@ == lossy_text(bytes),
        (
            MetaDataParseError::InvalidNodeCoordType(text),
            HeaderFault::InvalidNodeCoordType(bytes),
        ) => text@ == lossy_text(bytes),
        (
            MetaDataParseError::InvalidDisplayDataType(text),
            HeaderFault::InvalidDisplayDataType(bytes),
        ) => text@ == lossy_text(bytes),
        (
            MetaDataParseError::InstanceMetadataBuilderError(error),
            HeaderFault::Missing(message),
        ) => error.0 == message,
        _ => false,
    }
}

/// Whether `error` tells of the fault `fault`: what is not read by its
/// name, every other fault as [`reports`] says.
pub open spec fn tells(error: ParserError, fault: HeaderFault) -> bool {
    match (error, fault) {
        (ParserError::Unimplemented(what), HeaderFault::Unimplemented(named)) => what == named,
        (ParserError::Unimplemented(_), _) => false,
        (ParserError::MetaDataParsing(error), fault) => reports(error, fault),
    }
}

/// The value of `ProblemType` that `word` names, if it names one.
pub open spec fn problem_type_of(word: Seq<u8>) -> Option<ProblemType> {
    if word == "TSP".spec_bytes() {
        Some(ProblemType::TSP)
    } else if word == "ATSP".spec_bytes() {
        Some(ProblemType::ATSP)
    } else if word == "SOP".spec_bytes() {
        Some(ProblemType::SOP)
    } else if word == "HCP".spec_bytes() {
        Some(ProblemType::HCP)
    } else if word == "CVRP".spec_bytes() {
        Some(ProblemType::CVRP)
    } else if word == "TOUR".spec_bytes() {
        Some(ProblemType::TOUR)
    } else {
        None
    }
}

/// The value of `EdgeWeightType` that `word` names, if it names one.
pub open spec fn edge_weight_type_of(word: Seq<u8>) -> Option<EdgeWeightType> {
    if word == "EXPLICIT".spec_bytes() {
        Some(EdgeWeightType::EXPLICIT)
    } else if word == "EUC_2D".spec_bytes() {
        Some(EdgeWeightType::EUC_2D)
    } else if word == "EUC_3D".spec_bytes() {
        Some(EdgeWeightType::EUC_3D)
    } else if word == "MAX_2D".spec_bytes() {
        Some(EdgeWeightType::MAX_2D)
    } else if word == "MAX_3D".spec_bytes() {
        Some(EdgeWeightType::MAX_3D)
    } else if word == "MAN_2D".spec_bytes() {
        Some(EdgeWeightType::MAN_2D)
    } else if word == "MAN_3D".spec_bytes() {
        Some(EdgeWeightType::MAN_3D)
    } else if word == "CEIL_2D".spec_bytes() {
        Some(EdgeWeightType::CEIL_2D)
    } else if word == "GEO".spec_bytes() {
        Some(EdgeWeightType::GEO)
    } else if word == "ATT".spec_bytes() {
        Some(EdgeWeightType::ATT)
    } else if word == "XRAY1".spec_bytes() {
        Some(EdgeWeightType::XRAY1)
    } else if word == "XRAY2".spec_bytes() {
        Some(EdgeWeightType::XRAY2)
    } else if word == "SPECIAL".spec_bytes() {
        Some(EdgeWeightType::SPECIAL)
    } else {
        None
    }
}

/// The value of `EdgeWeightFormat` that `word` names, if it names one.
pub open spec fn edge_weight_format_of(word: Seq<u8>) -> Option<EdgeWeightFormat> {
    if word == "FUNCTION".spec_bytes() {
        Some(EdgeWeightFormat::FUNCTION)
    } else if word == "FULL_MATRIX".spec_bytes() {
        Some(EdgeWeightFormat::FULL_MATRIX)
    } else if word == "UPPER_ROW".spec_bytes() {
        Some(EdgeWeightFormat::UPPER_ROW)
    } else if word == "LOWER_ROW".spec_bytes() {
        Some(EdgeWeightFormat::LOWER_ROW)
    } else if word == "UPPER_DIAG_ROW".spec_bytes() {
        Some(EdgeWeightFormat::UPPER_DIAG_ROW)
    } else if word == "LOWER_DIAG_ROW".spec_bytes() {
        Some(EdgeWeightFormat::LOWER_DIAG_ROW)
    } else if word == "UPPER_COL".spec_bytes() {
        Some(EdgeWeightFormat::UPPER_COL)
    } else if word == "LOWER_COL".spec_bytes() {
        Some(EdgeWeightFormat::LOWER_COL)
    } else if word == "UPPER_DIAG_COL".spec_bytes() {
        Some(EdgeWeightFormat::UPPER_DIAG_COL)
    } else if word == "LOWER_DIAG_COL".spec_bytes() {
        Some(EdgeWeightFormat::LOWER_DIAG_COL)
    } else {
        None
    }
}

/// The value of `EdgeDataFormat` that `word` names, if it names one.
pub open spec fn edge_data_format_of(word: Seq<u8>) -> Option<EdgeDataFormat> {
    if word == "EDGE_LIST".spec_bytes() {
        Some(EdgeDataFormat::EDGE_LIST)
    } else if word == "ADJ_LIST".spec_bytes() {
        Some(EdgeDataFormat::ADJ_LIST)
    } else {
        None
    }
}

/// The value of `NodeCoordType` that `word` names, if it names one.
pub open spec fn node_coord_type_of(word: Seq<u8>) -> Option<NodeCoordType> {
    if word == "TWOD_COORDS".spec_bytes() {
        Some(NodeCoordType::TWOD_COORDS)
    } else if word == "THREED_COORDS".spec_bytes() {
        Some(NodeCoordType::THREED_COORDS)
    } else if word == "NO_COORDS".spec_bytes() {
        Some(NodeCoordType::NO_COORDS)
    } else {
        None
    }
}

/// The value of `DisplayDataType` that `word` names, if it names one.
pub open spec fn display_data_type_of(word: Seq<u8>) -> Option<DisplayDataType> {
    if word == "COORD_DISPLAY".spec_bytes() {
        Some(DisplayDataType::COORD_DISPLAY)
    } else if word == "TWOD_DISPLAY".spec_bytes() {
        Some(DisplayDataType::TWOD_DISPLAY)
    } else if word == "NO_DISPLAY".spec_bytes() {
        Some(DisplayDataType::NO_DISPLAY)
    } else {
        None
    }
}

/// The data keyword that `word` is, if it is one.
pub open spec fn data_keyword_of(word: Seq<u8>) -> Option<TSPDataKeyword> {
    if word == "NODE_COORD_SECTION".spec_bytes() {
        Some(TSPDataKeyword::NODE_COORD_SECTION)
    } else if word == "DEPOT_SECTION".spec_bytes() {
        Some(TSPDataKeyword::DEPOT_SECTION)
    } else if word == "DEMAND_SECTION".spec_bytes() {
        Some(TSPDataKeyword::DEMAND_SECTION)
    } else if word == "EDGE_DATA_SECTION".spec_bytes() {
        Some(TSPDataKeyword::EDGE_DATA_SECTION)
    } else if word == "FIXED_EDGES_SECTION".spec_bytes() {
        Some(TSPDataKeyword::FIXED_EDGES_SECTION)
    } else if word == "DISPLAY_DATA_SECTION".spec_bytes() {
        Some(TSPDataKeyword::DISPLAY_DATA_SECTION)
    } else if word == "TOUR_SECTION".spec_bytes() {
        Some(TSPDataKeyword::TOUR_SECTION)
    } else if word == "EDGE_WEIGHT_SECTION".spec_bytes() {
        Some(TSPDataKeyword::EDGE_WEIGHT_SECTION)
    } else {
        None
    }
}

/// The data section that `word` opens, or why none is opened: fixed edges
/// sections are not read, and any other word that is no data keyword is an
/// invalid keyword.
pub open spec fn opened_section(word: Seq<u8>) -> Result<TSPDataKeyword, HeaderFault> {
    match data_keyword_of(word) {
        Some(TSPDataKeyword::FIXED_EDGES_SECTION) => Err(
            HeaderFault::Unimplemented(
                Unimplemented::DataSection(TSPDataKeyword::FIXED_EDGES_SECTION),
            ),
        ),
        Some(keyword) => Ok(keyword),
        None => Err(HeaderFault::InvalidKeyword(word)),
    }
}

/// Reads the bytes `start..end` of `content` as the kind of problem.
pub fn parse_problem_type(content: &[u8], start: usize, end: usize) -> (res: Result<
    ProblemType,
    MetaDataParseError,
>)
    requires
        start <= end <= content@.len(),
    ensures
        match res {
            Ok(value) => problem_type_of(content@.subrange(start as int, end as int)) == Some(
                value,
            ),
            Err(error) => problem_type_of(content@.subrange(start as int, end as int)) is None
                && reports(
                error,
                HeaderFault::InvalidProblemType(content@.subrange(start as int, end as int)),
            ),
        },
{
    if is_word(content, start, end, "TSP") {
        Ok(ProblemType::TSP)
    } else if is_word(content, start, end, "ATSP") {
        Ok(ProblemType::ATSP)
    } else if is_word(content, start, end, "SOP") {
        Ok(ProblemType::SOP)
    } else if is_word(content, start, end, "HCP") {
        Ok(ProblemType::HCP)
    } else if is_word(content, start, end, "CVRP") {
        Ok(ProblemType::CVRP)
    } else if is_word(content, start, end, "TOUR") {
        Ok(ProblemType::TOUR)
    } else {
        Err(MetaDataParseError::InvalidProblemType(text_of(&content[start..end])))
    }
}

/// Reads the bytes `start..end` of `content` as the way the edge weights are given.
pub fn parse_edge_weight_type(content: &[u8], start: usize, end: usize) -> (res: Result<
    EdgeWeightType,
    MetaDataParseError,
>)
    requires
        start <= end <= content@.len(),
    ensures
        match res {
            Ok(value) => edge_weight_type_of(content@.subrange(start as int, end as int)) == Some(
                value,
            ),
            Err(error) => edge_weight_type_of(content@.subrange(start as int, end as int)) is None
                && reports(
                error,
                HeaderFault::InvalidEdgeWeightType(content@.subrange(start as int, end as int)),
            ),
        },
{
    if is_word(content, start, end, "EXPLICIT") {
        Ok(EdgeWeightType::EXPLICIT)
    } else if is_word(content, start, end, "EUC_2D") {
        Ok(EdgeWeightType::EUC_2D)
    } else if is_word(content, start, end, "EUC_3D") {
        Ok(EdgeWeightType::EUC_3D)
    } else if is_word(content, start, end, "MAX_2D") {
        Ok(EdgeWeightType::MAX_2D)
    } else if is_word(content, start, end, "MAX_3D") {
        Ok(EdgeWeightType::MAX_3D)
    } else if is_word(content, start, end, "MAN_2D") {
        Ok(EdgeWeightType::MAN_2D)
    } else if is_word(content, start, end, "MAN_3D") {
        Ok(EdgeWeightType::MAN_3D)
    } else if is_word(content, start, end, "CEIL_2D") {
        Ok(EdgeWeightType::CEIL_2D)
    } else if is_word(content, start, end, "GEO") {
        Ok(EdgeWeightType::GEO)
    } else if is_word(content, start, end, "ATT") {
        Ok(EdgeWeightType::ATT)
    } else if is_word(content, start, end, "XRAY1") {
        Ok(EdgeWeightType::XRAY1)
    } else if is_word(content, start, end, "XRAY2") {
        Ok(EdgeWeightType::XRAY2)
    } else if is_word(content, start, end, "SPECIAL") {
        Ok(EdgeWeightType::SPECIAL)
    } else {
        Err(MetaDataParseError::InvalidEdgeWeightType(text_of(&content[start..end])))
    }
}

/// Reads the bytes `start..end` of `content` as the layout of explicit edge weights.
pub fn parse_edge_weight_format(content: &[u8], start: usize, end: usize) -> (res: Result<
    EdgeWeightFormat,
    MetaDataParseError,
>)
    requires
        start <= end <= content@.len(),
    ensures
        match res {
            Ok(value) => edge_weight_format_of(content@.subrange(start as int, end as int)) == Some(
                value,
            ),
            Err(error) => edge_weight_format_of(content@.subrange(start as int, end as int)) is None
                && reports(
                error,
                HeaderFault::InvalidEdgeWeightFormat(content@.subrange(start as int, end as int)),
            ),
        },
{
    if is_word(content, start, end, "FUNCTION") {
        Ok(EdgeWeightFormat::FUNCTION)
    } else if is_word(content, start, end, "FULL_MATRIX") {
        Ok(EdgeWeightFormat::FULL_MATRIX)
    } else if is_word(content, start, end, "UPPER_ROW") {
        Ok(EdgeWeightFormat::UPPER_ROW)
    } else if is_word(content, start, end, "LOWER_ROW") {
        Ok(EdgeWeightFormat::LOWER_ROW)
    } else if is_word(content, start, end, "UPPER_DIAG_ROW") {
        Ok(EdgeWeightFormat::UPPER_DIAG_ROW)
    } else if is_word(content, start, end, "LOWER_DIAG_ROW") {
        Ok(EdgeWeightFormat::LOWER_DIAG_ROW)
    } else if is_word(content, start, end, "UPPER_COL") {
        Ok(EdgeWeightFormat::UPPER_COL)
    } else if is_word(content, start, end, "LOWER_COL") {
        Ok(EdgeWeightFormat::LOWER_COL)
    } else if is_word(content, start, end, "UPPER_DIAG_COL") {
        Ok(EdgeWeightFormat::UPPER_DIAG_COL)
    } else if is_word(content, start, end, "LOWER_DIAG_COL") {
        Ok(EdgeWeightFormat::LOWER_DIAG_COL)
    } else {
        Err(MetaDataParseError::InvalidEdgeWeightFormat(text_of(&content[start..end])))
    }
}

/// Reads the bytes `start..end` of `content` as the layout of the edge list.
pub fn parse_edge_data_format(content: &[u8], start: usize, end: usize) -> (res: Result<
    EdgeDataFormat,
    MetaDataParseError,
>)
    requires
        start <= end <= content@.len(),
    ensures
        match res {
            Ok(value) => edge_data_format_of(content@.subrange(start as int, end as int)) == Some(
                value,
            ),
            Err(error) => edge_data_format_of(content@.subrange(start as int, end as int)) is None
                && reports(
                error,
                HeaderFault::InvalidEdgeDataFormat(content@.subrange(start as int, end as int)),
            ),
        },
{
    if is_word(content, start, end, "EDGE_LIST") {
        Ok(EdgeDataFormat::EDGE_LIST)
    } else if is_word(content, start, end, "ADJ_LIST") {
        Ok(EdgeDataFormat::ADJ_LIST)
    } else {
        Err(MetaDataParseError::InvalidEdgeDataFormat(text_of(&content[start..end])))
    }
}

/// Reads the bytes `start..end` of `content` as the kind of node coordinates.
pub fn parse_node_coord_type(content: &[u8], start: usize, end: usize) -> (res: Result<
    NodeCoordType,
    MetaDataParseError,
>)
    requires
        start <= end <= content@.len(),
    ensures
        match res {
            Ok(value) => node_coord_type_of(content@.subrange(start as int, end as int)) == Some(
                value,
            ),
            Err(error) => node_coord_type_of(content@.subrange(start as int, end as int)) is None
                && reports(
                error,
                HeaderFault::InvalidNodeCoordType(content@.subrange(start as int, end as int)),
            ),
        },
{
    if is_word(content, start, end, "TWOD_COORDS") {
        Ok(NodeCoordType::TWOD_COORDS)
    } else if is_word(content, start, end, "THREED_COORDS") {
        Ok(NodeCoordType::THREED_COORDS)
    } else if is_word(content, start, end, "NO_COORDS") {
        Ok(NodeCoordType::NO_COORDS)
    } else {
        Err(MetaDataParseError::InvalidNodeCoordType(text_of(&content[start..end])))
    }
}

/// Reads the bytes `start..end` of `content` as the way the display data is obtained.
pub fn parse_display_data_type(content: &[u8], start: usize, end: usize) -> (res: Result<
    DisplayDataType,
    MetaDataParseError,
>)
    requires
        start <= end <= content@.len(),
    ensures
        match res {
            Ok(value) => display_data_type_of(content@.subrange(start as int, end as int)) == Some(
                value,
            ),
            Err(error) => display_data_type_of(content@.subrange(start as int, end as int)) is None
                && reports(
                error,
                HeaderFault::InvalidDisplayDataType(content@.subrange(start as int, end as int)),
            ),
        },
{
    if is_word(content, start, end, "COORD_DISPLAY") {
        Ok(DisplayDataType::COORD_DISPLAY)
    } else if is_word(content, start, end, "TWOD_DISPLAY") {
        Ok(DisplayDataType::TWOD_DISPLAY)
    } else if is_word(content, start, end, "NO_DISPLAY") {
        Ok(DisplayDataType::NO_DISPLAY)
    } else {
        Err(MetaDataParseError::InvalidDisplayDataType(text_of(&content[start..end])))
    }
}

/// Reads the bytes `start..end` of `content` as the keyword that opens a
/// data section. A fixed edges section is reported as not read.
pub fn parse_data_keyword(content: &[u8], start: usize, end: usize) -> (res: Result<
    TSPDataKeyword,
    ParserError,
>)
    requires
        start <= end <= content@.len(),
    ensures
        match opened_section(content@.subrange(start as int, end as int)) {
            Ok(keyword) => res == Ok::<TSPDataKeyword, ParserError>(keyword),
            Err(fault) => res matches Err(error) && tells(error, fault),
        },
{
    if is_word(content, start, end, "NODE_COORD_SECTION") {
        Ok(TSPDataKeyword::NODE_COORD_SECTION)
    } else if is_word(content, start, end, "DEPOT_SECTION") {
        Ok(TSPDataKeyword::DEPOT_SECTION)
    } else if is_word(content, start, end, "DEMAND_SECTION") {
        Ok(TSPDataKeyword::DEMAND_SECTION)
    } else if is_word(content, start, end, "EDGE_DATA_SECTION") {
        Ok(TSPDataKeyword::EDGE_DATA_SECTION)
    } else if is_word(content, start, end, "FIXED_EDGES_SECTION") {
        Err(
            ParserError::Unimplemented(
                Unimplemented::DataSection(TSPDataKeyword::FIXED_EDGES_SECTION),
            ),
        )
    } else if is_word(content, start, end, "DISPLAY_DATA_SECTION") {
        Ok(TSPDataKeyword::DISPLAY_DATA_SECTION)
    } else if is_word(content, start, end, "TOUR_SECTION") {
        Ok(TSPDataKeyword::TOUR_SECTION)
    } else if is_word(content, start, end, "EDGE_WEIGHT_SECTION") {
        Ok(TSPDataKeyword::EDGE_WEIGHT_SECTION)
    } else {
        Err(
            ParserError::MetaDataParsing(
                MetaDataParseError::InvalidKeyword(text_of(&content[start..end])),
            ),
        )
    }
}

/// The entries of a specification part, texts as sequences of characters.
pub struct Draft {
    pub name: Option<Seq<char>>,
    pub problem_type: Option<ProblemType>,
    pub comment: Option<Seq<char>>,
    pub dimension: Option<usize>,
    pub capacity: Option<usize>,
    pub edge_weight_type: Option<EdgeWeightType>,
    pub edge_weight_format: Option<EdgeWeightFormat>,
    pub edge_data_format: Option<EdgeDataFormat>,
    pub node_coord_type: Option<NodeCoordType>,
    pub display_data_type: Option<DisplayDataType>,
}

/// The characters of a text, if there is one.
pub open spec fn characters(text: Option<String>) -> Option<Seq<char>> {
    match text {
        Some(text) => Some(text@),
        None => None,
    }
}

/// The entries that `builder` has seen.
pub open spec fn draft_of(builder: InstanceMetadataBuilder) -> Draft {
    Draft {
        name: characters(builder.name),
        problem_type: builder.problem_type,
        comment: characters(builder.comment),
        dimension: builder.dimension,
        capacity: builder.capacity,
        edge_weight_type: builder.edge_weight_type,
        edge_weight_format: builder.edge_weight_format,
        edge_data_format: builder.edge_data_format,
        node_coord_type: builder.node_coord_type,
        display_data_type: builder.display_data_type,
    }
}

/// No entry.
pub open spec fn empty_draft() -> Draft {
    Draft {
        name: None,
        problem_type: None,
        comment: None,
        dimension: None,
        capacity: None,
        edge_weight_type: None,
        edge_weight_format: None,
        edge_data_format: None,
        node_coord_type: None,
        display_data_type: None,
    }
}

/// The first required entry that `draft` lacks, by its message.
pub open spec fn missing_in(draft: Draft) -> Option<&'static str> {
    if draft.name is None {
        Some("name is required")
    } else if draft.problem_type is None {
        Some("problem_type is required")
    } else if draft.dimension is None {
        Some("dimension is required")
    } else if draft.edge_weight_type is None {
        Some("edge_weight_type is required")
    } else {
        None
    }
}

/// Whether `metadata` holds the entries of `draft`, with `NO_COORDS` where
/// the draft has no node coordinate type.
pub open spec fn describes(metadata: InstanceMetadata, draft: Draft) -> bool {
    &&& draft.name == Some(metadata.name@)
    &&& draft.problem_type == Some(metadata.problem_type)
    &&& draft.comment == characters(metadata.comment)
    &&& draft.dimension == Some(metadata.dimension)
    &&& draft.capacity == metadata.capacity
    &&& draft.edge_weight_type == Some(metadata.edge_weight_type)
    &&& draft.edge_weight_format == metadata.edge_weight_format
    &&& draft.edge_data_format == metadata.edge_data_format
    &&& metadata.node_coord_type == match draft.node_coord_type {
        Some(kind) => kind,
        None => NodeCoordType::NO_COORDS,
    }
    &&& draft.display_data_type == metadata.display_data_type
}

/// The draft after the entry with keyword `key` and value `value`, or what
/// is wrong with the entry. A later entry replaces an earlier one with the
/// same keyword. The dimension is a positive decimal number, the capacity a
/// decimal number.
pub open spec fn read_entry(key: Seq<u8>, value: Seq<u8>, draft: Draft) -> Result<
    Draft,
    HeaderFault,
> {
    if key == "NAME".spec_bytes() {
        Ok(Draft { name: Some(lossy_text(value)), ..draft })
    } else if key == "TYPE".spec_bytes() {
        match problem_type_of(value) {
            Some(kind) => Ok(Draft { problem_type: Some(kind), ..draft }),
            None => Err(HeaderFault::InvalidProblemType(value)),
        }
    } else if key == "COMMENT".spec_bytes() {
        Ok(Draft { comment: Some(lossy_text(value)), ..draft })
    } else if key == "DIMENSION".spec_bytes() {
        match decimal_number(value) {
            Some(dimension) => if dimension > 0 {
                Ok(Draft { dimension: Some(dimension), ..draft })
            } else {
                Err(HeaderFault::InvalidDimension(value))
            },
            None => Err(HeaderFault::InvalidDimension(value)),
        }
    } else if key == "CAPACITY".spec_bytes() {
        match decimal_number(value) {
            Some(capacity) => Ok(Draft { capacity: Some(capacity), ..draft }),
            None => Err(HeaderFault::InvalidCapacity(value)),
        }
    } else if key == "EDGE_WEIGHT_TYPE".spec_bytes() {
        match edge_weight_type_of(value) {
            Some(kind) => Ok(Draft { edge_weight_type: Some(kind), ..draft }),
            None => Err(HeaderFault::InvalidEdgeWeightType(value)),
        }
    } else if key == "EDGE_WEIGHT_FORMAT".spec_bytes() {
        match edge_weight_format_of(value) {
            Some(kind) => Ok(Draft { edge_weight_format: Some(kind), ..draft }),
            None => Err(HeaderFault::InvalidEdgeWeightFormat(value)),
        }
    } else if key == "EDGE_DATA_FORMAT".spec_bytes() {
        match edge_data_format_of(value) {
            Some(kind) => Ok(Draft { edge_data_format: Some(kind), ..draft }),
            None => Err(HeaderFault::InvalidEdgeDataFormat(value)),
        }
    } else if key == "NODE_COORD_TYPE".spec_bytes() {
        match node_coord_type_of(value) {
            Some(kind) => Ok(Draft { node_coord_type: Some(kind), ..draft }),
            None => Err(HeaderFault::InvalidNodeCoordType(value)),
        }
    } else if key == "DISPLAY_DATA_TYPE".spec_bytes() {
        match display_data_type_of(value) {
            Some(kind) => Ok(Draft { display_data_type: Some(kind), ..draft }),
            None => Err(HeaderFault::InvalidDisplayDataType(value)),
        }
    } else {
        Err(HeaderFault::InvalidKeyword(key))
    }
}

/// What a line of the specification part is.
pub enum HeaderLine {
    /// An entry; the draft with the entry.
    Entry(Draft),
    /// The keyword that opens a data section.
    Section(TSPDataKeyword),
    /// Neither.
    Fault(HeaderFault),
}

/// The bytes `range.0..range.1` of `content`.
pub open spec fn part(content: Seq<u8>, range: (int, int)) -> Seq<u8> {
    content.subrange(range.0, range.1)
}

/// What the line `start..end` is: with a colon an entry, keyword before
/// and value after the first colon; without one the keyword of a data
/// section, a fixed edges section being a fault. Whitespace around keyword
/// and value does not count.
#[verifier::opaque]
pub open spec fn read_line(content: Seq<u8>, start: int, end: int, draft: Draft) -> HeaderLine {
    let colon = position_of(content, 58, start, end);
    if colon < end {
        match read_entry(
            part(content, trimmed(content, start, colon)),
            part(content, trimmed(content, colon + 1, end)),
            draft,
        ) {
            Ok(next) => HeaderLine::Entry(next),
            Err(fault) => HeaderLine::Fault(fault),
        }
    } else {
        match opened_section(part(content, trimmed(content, start, end))) {
            Ok(keyword) => HeaderLine::Section(keyword),
            Err(fault) => HeaderLine::Fault(fault),
        }
    }
}

/// The lines from `index` on, up to the keyword that opens a data section:
/// the draft with their entries, that keyword, and where the next line
/// starts; or the first fault, and where reading stopped. Every line ends
/// in a line feed.
pub open spec fn read_lines(content: Seq<u8>, index: int, draft: Draft) -> Result<
    (Draft, TSPDataKeyword, int),
    (HeaderFault, int),
>
    decreases content.len() - index,
{
    let end = line_end(content, index);
    if index < 0 || index > content.len() || end >= content.len() {
        Err((HeaderFault::UnexpectedEnd, index))
    } else {
        proof {
            lemma_line_end(content, index);
        }
        match read_line(content, index, end, draft) {
            HeaderLine::Entry(next) => read_lines(content, end + 1, next),
            HeaderLine::Section(keyword) => Ok((draft, keyword, end + 1)),
            HeaderLine::Fault(fault) => Err((fault, end + 1)),
        }
    }
}

/// The specification part that starts at `index`: its entries, the keyword
/// that opens the data part, and where the data part starts; or what is
/// wrong with it, and where reading stopped. The name, the problem type,
/// the dimension and the edge weight type are required.
pub open spec fn read_header(content: Seq<u8>, index: int) -> Result<
    (Draft, TSPDataKeyword, int),
    (HeaderFault, int),
> {
    match read_lines(content, index, empty_draft()) {
        Ok((draft, keyword, next)) => match missing_in(draft) {
            Some(message) => Err((HeaderFault::Missing(message), next)),
            None => Ok((draft, keyword, next)),
        },
        Err(fault) => Err(fault),
    }
}

/// Reads one entry of the specification part into `metadata_builder`:
/// keyword `key_start..key_end`, value `value_start..value_end`.
pub fn parse_specification(
    content: &[u8],
    key_start: usize,
    key_end: usize,
    value_start: usize,
    value_end: usize,
    metadata_builder: &mut InstanceMetadataBuilder,
) -> (res: Result<(), MetaDataParseError>)
    requires
        key_start <= key_end <= content@.len(),
        value_start <= value_end <= content@.len(),
    ensures
        match res {
            Ok(_) => read_entry(
                content@.subrange(key_start as int, key_end as int),
                content@.subrange(value_start as int, value_end as int),
                draft_of(*old(metadata_builder)),
            ) == Ok::<Draft, HeaderFault>(draft_of(*final(metadata_builder))),
            Err(error) => draft_of(*final(metadata_builder)) == draft_of(*old(metadata_builder))
                && match read_entry(
                content@.subrange(key_start as int, key_end as int),
                content@.subrange(value_start as int, value_end as int),
                draft_of(*old(metadata_builder)),
            ) {
                Ok(_) => false,
                Err(fault) => reports(error, fault),
            },
        },
{
    if is_word(content, key_start, key_end, "NAME") {
        metadata_builder.name = Some(text_of(&content[value_start..value_end]));
        Ok(())
    } else if is_word(content, key_start, key_end, "TYPE") {
        let value = parse_problem_type(content, value_start, value_end)?;
        metadata_builder.problem_type = Some(value);
        Ok(())
    } else if is_word(content, key_start, key_end, "COMMENT") {
        metadata_builder.comment = Some(text_of(&content[value_start..value_end]));
        Ok(())
    } else if is_word(content, key_start, key_end, "DIMENSION") {
        match parse_decimal(content, value_start, value_end) {
            Some(dimension) => {
                if dimension > 0 {
                    metadata_builder.dimension = Some(dimension);
                    Ok(())
                } else {
                    Err(
                        MetaDataParseError::InvalidDimension(
                            text_of(&content[value_start..value_end]),
                        ),
                    )
                }
            },
            None => Err(
                MetaDataParseError::InvalidDimension(text_of(&content[value_start..value_end])),
            ),
        }
    } else if is_word(content, key_start, key_end, "CAPACITY") {
        match parse_decimal(content, value_start, value_end) {
            Some(capacity) => {
                metadata_builder.capacity = Some(capacity);
                Ok(())
            },
            None => Err(
                MetaDataParseError::InvalidCapacity(text_of(&content[value_start..value_end])),
            ),
        }
    } else if is_word(content, key_start, key_end, "EDGE_WEIGHT_TYPE") {
        let value = parse_edge_weight_type(content, value_start, value_end)?;
        metadata_builder.edge_weight_type = Some(value);
        Ok(())
    } else if is_word(content, key_start, key_end, "EDGE_WEIGHT_FORMAT") {
        let value = parse_edge_weight_format(content, value_start, value_end)?;
        metadata_builder.edge_weight_format = Some(value);
        Ok(())
    } else if is_word(content, key_start, key_end, "EDGE_DATA_FORMAT") {
        let value = parse_edge_data_format(content, value_start, value_end)?;
        metadata_builder.edge_data_format = Some(value);
        Ok(())
    } else if is_word(content, key_start, key_end, "NODE_COORD_TYPE") {
        let value = parse_node_coord_type(content, value_start, value_end)?;
        metadata_builder.node_coord_type = Some(value);
        Ok(())
    } else if is_word(content, key_start, key_end, "DISPLAY_DATA_TYPE") {
        let value = parse_display_data_type(content, value_start, value_end)?;
        metadata_builder.display_data_type = Some(value);
        Ok(())
    } else {
        Err(MetaDataParseError::InvalidKeyword(text_of(&content[key_start..key_end])))
    }
}

/// Reads the line `start..end` of the specification part: an entry goes
/// into `metadata_builder`, the keyword of a data section is returned.
pub fn parse_specification_or_data_keyword(
    content: &[u8],
    start: usize,
    end: usize,
    metadata_builder: &mut InstanceMetadataBuilder,
) -> (res: Result<Option<TSPDataKeyword>, ParserError>)
    requires
        start <= end <= content@.len(),
    ensures
        match read_line(content@, start as int, end as int, draft_of(*old(metadata_builder))) {
            HeaderLine::Entry(next) => res matches Ok(None) && draft_of(*final(metadata_builder))
                == next,
            HeaderLine::Section(keyword) => res == Ok::<Option<TSPDataKeyword>, ParserError>(
                Some(keyword),
            ) && draft_of(*final(metadata_builder)) == draft_of(*old(metadata_builder)),
            HeaderLine::Fault(fault) => res matches Err(error) && tells(error, fault)
                && draft_of(*final(metadata_builder)) == draft_of(*old(metadata_builder)),
        },
{
    proof {
        reveal(read_line);
    }
    let colon = find_byte(content, 58, start, end);
    if colon < end {
        let (key_start, key_end) = trim(content, start, colon);
        let (value_start, value_end) = trim(content, colon + 1, end);
        match parse_specification(
            content,
            key_start,
            key_end,
            value_start,
            value_end,
            metadata_builder,
        ) {
            Ok(_) => Ok(None),
            Err(error) => Err(ParserError::MetaDataParsing(error)),
        }
    } else {
        let (word_start, word_end) = trim(content, start, end);
        match parse_data_keyword(content, word_start, word_end) {
            Ok(keyword) => Ok(Some(keyword)),
            Err(error) => Err(error),
        }
    }
}

/// Reads the specification part of the instance file `file_content` from
/// `index_in_map` on, and moves `index_in_map` to the start of the data
/// part.
///
/// Returns the metadata and the keyword that opens the data part. A fixed
/// edges section is reported as not read.
pub fn parse_metadata(file_content: &[u8], index_in_map: &mut usize) -> (res: Result<
    (InstanceMetadata, TSPDataKeyword),
    ParserError,
>)
    requires
        *old(index_in_map) <= file_content@.len(),
    ensures
        *final(index_in_map) <= file_content@.len(),
        match read_header(file_content@, *old(index_in_map) as int) {
            Ok((draft, keyword, next)) => res matches Ok((metadata, found)) && describes(
                metadata,
                draft,
            ) && found == keyword && *final(index_in_map) == next,
            Err((fault, next)) => res matches Err(error) && tells(error, fault)
                && *final(index_in_map) == next,
        },
{
    let mut metadata_builder = InstanceMetadataBuilder::new();
    let ghost start = *index_in_map as int;
    let mut data_keyword: Option<TSPDataKeyword> = None;
    while data_keyword.is_none()
        invariant
            start == *old(index_in_map),
            *index_in_map <= file_content@.len(),
            match data_keyword {
                None => read_lines(
                    file_content@,
                    *index_in_map as int,
                    draft_of(metadata_builder),
                ) == read_lines(file_content@, start, empty_draft()),
                Some(keyword) => read_lines(file_content@, start, empty_draft()) == Ok::<
                    (Draft, TSPDataKeyword, int),
                    (HeaderFault, int),
                >((draft_of(metadata_builder), keyword, *index_in_map as int)),
            },
        decreases
                file_content@.len() - *index_in_map + if data_keyword is None {
                    1int
                } else {
                    0int
                },
    {
        let (end, terminated) = find_line_end(file_content, *index_in_map);
        if !terminated {
            return Err(
                ParserError::MetaDataParsing(
                    MetaDataParseError::InvalidInput("Unexpected end of file".to_string()),
                ),
            );
        }
        proof {
            assert(file_content.len() == file_content@.len());
        }
        let line_start = *index_in_map;
        *index_in_map = end + 1;
        match parse_specification_or_data_keyword(
            file_content,
            line_start,
            end,
            &mut metadata_builder,
        ) {
            Ok(found) => {
                data_keyword = found;
            },
            Err(error) => {
                return Err(error);
            },
        }
    }
    let data_keyword = data_keyword.unwrap();
    match metadata_builder.build() {
        Ok(metadata) => Ok((metadata, data_keyword)),
        Err(error) => Err(ParserError::MetaDataParsing(error)),
    }
}

} // verus!
