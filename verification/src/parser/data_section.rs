//! The node coordinate section: one line per node, `index x y` or
//! `index x y z`, up to a line that says `EOF`, an empty line, or the end of
//! the input.
//!
//! The section is scanned into the places of the coordinates in the file.
//! What number a coordinate writes is for the caller to read.

use crate::instance::InstanceMetadata;
use crate::parser::metadata::part;
use crate::parser::metadata::MetaDataParseError;
use crate::parser::text::contains_byte;
use crate::parser::text::find_line_end;
use crate::parser::text::is_word;
use crate::parser::text::lemma_line_end;
use crate::parser::text::line_end;
use crate::parser::text::lossy_text;
use crate::parser::text::skip_spaces;
use crate::parser::text::skip_spaces_from;
use crate::parser::text::skip_token;
use crate::parser::text::skip_token_from;
use crate::parser::text::text_of;
use crate::parser::text::trim;
use crate::parser::text::trimmed;
use crate::parser::ParserError;
use crate::parser::Unimplemented;
use crate::tsp_lib_spec::EdgeWeightType;
use crate::tsp_lib_spec::ProblemType;
use crate::tsp_lib_spec::TSPDataKeyword;
use vstd::prelude::*;
use vstd::string::StringSliceAdditionalSpecFns;

verus! {

/// The place of a token in the file: the bytes `start..end`.
#[derive(Debug, Clone, Copy, PartialEq, Eq, Structural)]
pub struct Token {
    pub start: usize,
    pub end: usize,
}

/// The places of the coordinates of one node.
#[derive(Debug, Clone, Copy, PartialEq, Eq, Structural)]
pub struct CoordinateLine {
    pub x: Token,
    pub y: Token,
    /// The third coordinate, in a section of points in space.
    pub z: Option<Token>,
}

/// A scanned node coordinate section.
#[derive(Debug)]
pub struct NodeCoordSection {
    /// Whether the points have three coordinates.
    pub spatial: bool,
    /// Whether the coordinates are written with a decimal point.
    pub decimal: bool,
    /// The coordinates of the nodes, in the order of the file.
    pub lines: Vec<CoordinateLine>,
}

/// The first token from `from` on, before `end`: whitespace is skipped, and
/// the token runs up to the next whitespace. An empty token means that
/// there is none.
pub open spec fn next_token(content: Seq<u8>, from: int, end: int) -> (int, int) {
    let start = skip_spaces(content, from, end);
    (start, skip_token(content, start, end))
}

/// The places of the coordinates on the line `start..end`: the tokens after
/// the first, which is the number of the node. `None` if a coordinate is
/// missing.
pub open spec fn coordinates_on(content: Seq<u8>, start: int, end: int, spatial: bool) -> Option<
    CoordinateLine,
> {
    let node = next_token(content, start, end);
    let x = next_token(content, node.1, end);
    let y = next_token(content, x.1, end);
    let z = next_token(content, y.1, end);
    if x.0 == x.1 || y.0 == y.1 || (spatial && z.0 == z.1) {
        None
    } else {
        Some(
            CoordinateLine {
                x: Token { start: x.0 as usize, end: x.1 as usize },
                y: Token { start: y.0 as usize, end: y.1 as usize },
                z: if spatial {
                    Some(Token { start: z.0 as usize, end: z.1 as usize })
                } else {
                    None
                },
            },
        )
    }
}

/// Reads the next token from `from` on.
pub fn read_token(content: &[u8], from: usize, end: usize) -> (res: Token)
    requires
        from <= end <= content@.len(),
    ensures
        (res.start as int, res.end as int) == next_token(content@, from as int, end as int),
        from <= res.start <= res.end <= end,
{
    let start = skip_spaces_from(content, from, end);
    Token { start, end: skip_token_from(content, start, end) }
}

/// Finds the coordinates on the line `start..end`.
pub fn parse_line_to_point(content: &[u8], start: usize, end: usize, spatial: bool) -> (res:
    Option<CoordinateLine>)
    requires
        start <= end <= content@.len(),
    ensures
        res == coordinates_on(content@, start as int, end as int, spatial),
        res matches Some(line) ==> start <= line.x.start < line.x.end <= line.y.start < line.y.end
            <= end && (line.z matches Some(z) ==> line.y.end <= z.start < z.end <= end) && (
        line.z is Some == spatial),
{
    let node = read_token(content, start, end);
    let x = read_token(content, node.end, end);
    if x.start == x.end {
        return None;
    }
    let y = read_token(content, x.end, end);
    if y.start == y.end {
        return None;
    }
    if spatial {
        let z = read_token(content, y.end, end);
        if z.start == z.end {
            return None;
        }
        Some(CoordinateLine { x, y, z: Some(z) })
    } else {
        Some(CoordinateLine { x, y, z: None })
    }
}

/// Whether a coordinate on the line is written with a decimal point.
pub open spec fn has_decimal_point(content: Seq<u8>, line: CoordinateLine) -> bool {
    ||| content.subrange(line.x.start as int, line.x.end as int).contains(46)
    ||| content.subrange(line.y.start as int, line.y.end as int).contains(46)
    ||| match line.z {
        Some(z) => content.subrange(z.start as int, z.end as int).contains(46),
        None => false,
    }
}

/// Whether the section that starts at `index` writes its coordinates with a
/// decimal point, judged by its first line.
pub open spec fn writes_decimals(content: Seq<u8>, index: int, spatial: bool) -> bool {
    let end = line_end(content, index);
    match coordinates_on(content, index, end, spatial) {
        Some(line) => has_decimal_point(content, line),
        None => false,
    }
}

/// Samples the first line of the section that starts at `index_in_map`:
/// whether one of its coordinates is written with a decimal point.
pub fn is_float_data(file_content: &[u8], index_in_map: usize, spatial: bool) -> (res: bool)
    requires
        index_in_map <= file_content@.len(),
    ensures
        res == writes_decimals(file_content@, index_in_map as int, spatial),
{
    let (end, _) = find_line_end(file_content, index_in_map);
    match parse_line_to_point(file_content, index_in_map, end, spatial) {
        None => false,
        Some(line) => {
            if contains_byte(file_content, line.x.start, line.x.end, 46) {
                true
            } else if contains_byte(file_content, line.y.start, line.y.end, 46) {
                true
            } else {
                match line.z {
                    Some(z) => contains_byte(file_content, z.start, z.end, 46),
                    None => false,
                }
            }
        },
    }
}

/// Whether the trimmed line `range` ends the section: it is empty or says
/// `EOF`.
pub open spec fn ends_section(content: Seq<u8>, range: (int, int)) -> bool {
    range.0 == range.1 || part(content, range) == "EOF".spec_bytes()
}

/// Where the line after the line `index..end` starts.
pub open spec fn after_line(content: Seq<u8>, end: int) -> int {
    if end < content.len() {
        end + 1
    } else {
        end
    }
}

/// The lines of the section from `index` on, added to `found`, and where
/// the section ends; or the first line that lacks a coordinate, and where
/// the line after it starts.
pub open spec fn section_lines(
    content: Seq<u8>,
    index: int,
    spatial: bool,
    found: Seq<CoordinateLine>,
) -> Result<(Seq<CoordinateLine>, int), (Seq<u8>, int)>
    decreases content.len() - index,
{
    if index < 0 || index >= content.len() {
        Ok((found, index))
    } else {
        let end = line_end(content, index);
        let range = trimmed(content, index, end);
        proof {
            lemma_line_end(content, index);
        }
        if ends_section(content, range) {
            Ok((found, after_line(content, end)))
        } else {
            match coordinates_on(content, range.0, range.1, spatial) {
                None => Err((part(content, range), after_line(content, end))),
                Some(line) => section_lines(
                    content,
                    after_line(content, end),
                    spatial,
                    found.push(line),
                ),
            }
        }
    }
}

/// Scans the node coordinate section that starts at `index_in_map`, and
/// moves `index_in_map` behind it.
pub fn parse_node_coord_section(
    file_content: &[u8],
    index_in_map: &mut usize,
    spatial: bool,
) -> (res: Result<Vec<CoordinateLine>, MetaDataParseError>)
    requires
        *old(index_in_map) <= file_content@.len(),
    ensures
        *final(index_in_map) <= file_content@.len(),
        match section_lines(file_content@, *old(index_in_map) as int, spatial, Seq::empty()) {
            Ok((lines, next)) => res matches Ok(found) && found@ == lines && *final(index_in_map)
                == next,
            Err((line, next)) => res matches Err(MetaDataParseError::InvalidInput(text)) && text@
                == lossy_text(line) && *final(index_in_map) == next,
        },
{
    let ghost start = *index_in_map as int;
    let mut lines: Vec<CoordinateLine> = Vec::new();
    let mut done = false;
    while !done && *index_in_map < file_content.len()
        invariant
            *index_in_map <= file_content@.len(),
            start == *old(index_in_map),
            if done {
                section_lines(file_content@, start, spatial, Seq::empty()) == Ok::<
                    (Seq<CoordinateLine>, int),
                    (Seq<u8>, int),
                >((lines@, *index_in_map as int))
            } else {
                section_lines(file_content@, *index_in_map as int, spatial, lines@)
                    == section_lines(file_content@, start, spatial, Seq::empty())
            },
        decreases
                file_content@.len() - *index_in_map + if done {
                    0int
                } else {
                    1int
                },
    {
        let (end, terminated) = find_line_end(file_content, *index_in_map);
        let (line_start, line_end) = trim(file_content, *index_in_map, end);
        *index_in_map = if terminated {
            end + 1
        } else {
            end
        };
        if line_start == line_end || is_word(file_content, line_start, line_end, "EOF") {
            done = true;
        } else {
            match parse_line_to_point(file_content, line_start, line_end, spatial) {
                None => {
                    return Err(
                        MetaDataParseError::InvalidInput(
                            text_of(&file_content[line_start..line_end]),
                        ),
                    );
                },
                Some(line) => {
                    lines.push(line);
                },
            }
        }
    }
    Ok(lines)
}

/// Whether distances of the edge weight type `kind` are computed from
/// coordinates, and if so, whether from points in space.
pub open spec fn coordinates_of(kind: EdgeWeightType) -> Option<bool> {
    match kind {
        EdgeWeightType::EUC_2D => Some(false),
        EdgeWeightType::MAX_2D => Some(false),
        EdgeWeightType::MAN_2D => Some(false),
        EdgeWeightType::CEIL_2D => Some(false),
        EdgeWeightType::ATT => Some(false),
        EdgeWeightType::GEO => Some(false),
        EdgeWeightType::EUC_3D => Some(true),
        EdgeWeightType::MAX_3D => Some(true),
        EdgeWeightType::MAN_3D => Some(true),
        _ => None,
    }
}

/// What stands in the way of reading the data part of an instance with
/// this problem type, edge weight type and first data keyword, if anything:
/// only `TSP` instances with distances computed from a node coordinate
/// section are read.
pub open spec fn obstacle(
    problem_type: ProblemType,
    edge_weight_type: EdgeWeightType,
    data_keyword: TSPDataKeyword,
) -> Option<Unimplemented> {
    if problem_type != ProblemType::TSP {
        Some(Unimplemented::ProblemType(problem_type))
    } else if coordinates_of(edge_weight_type) is None {
        Some(Unimplemented::EdgeWeightType(edge_weight_type))
    } else if data_keyword != TSPDataKeyword::NODE_COORD_SECTION {
        Some(Unimplemented::DataSection(data_keyword))
    } else {
        None
    }
}

/// Whether distances of the edge weight type `kind` are computed from
/// points in space; `None` if they are not computed from coordinates.
pub fn coordinate_kind(kind: EdgeWeightType) -> (res: Option<bool>)
    ensures
        res == coordinates_of(kind),
{
    match kind {
        EdgeWeightType::EUC_2D | EdgeWeightType::MAX_2D | EdgeWeightType::MAN_2D
        | EdgeWeightType::CEIL_2D | EdgeWeightType::ATT | EdgeWeightType::GEO => Some(false),
        EdgeWeightType::EUC_3D | EdgeWeightType::MAX_3D | EdgeWeightType::MAN_3D => Some(true),
        _ => None,
    }
}

/// Scans the data part of the instance file `file_content`, which starts at
/// `index_in_map` behind the keyword `data_keyword`, and moves
/// `index_in_map` behind the section.
///
/// Nothing is scanned where the metadata asks for something that is not
/// read.
pub fn parse_data_sections(
    file_content: &[u8],
    index_in_map: &mut usize,
    data_keyword: TSPDataKeyword,
    metadata: &InstanceMetadata,
) -> (res: Result<NodeCoordSection, ParserError>)
    requires
        *old(index_in_map) <= file_content@.len(),
    ensures
        *final(index_in_map) <= file_content@.len(),
        match obstacle(metadata.problem_type, metadata.edge_weight_type, data_keyword) {
            Some(what) => res matches Err(ParserError::Unimplemented(found)) && found == what
                && *final(index_in_map) == *old(index_in_map),
            None => match section_lines(
                file_content@,
                *old(index_in_map) as int,
                coordinates_of(metadata.edge_weight_type)->0,
                Seq::empty(),
            ) {
                Ok((lines, next)) => res matches Ok(section) && section.lines@ == lines
                    && section.spatial == coordinates_of(metadata.edge_weight_type)->0
                    && section.decimal == writes_decimals(
                    file_content@,
                    *old(index_in_map) as int,
                    section.spatial,
                ) && *final(index_in_map) == next,
                Err((line, next)) => res matches Err(
                    ParserError::MetaDataParsing(MetaDataParseError::InvalidInput(text)),
                ) && text@ == lossy_text(line) && *final(index_in_map) == next,
            },
        },
{
    if metadata.problem_type != ProblemType::TSP {
        return Err(ParserError::Unimplemented(Unimplemented::ProblemType(metadata.problem_type)));
    }
    let spatial = match coordinate_kind(metadata.edge_weight_type) {
        Some(spatial) => spatial,
        None => {
            return Err(
                ParserError::Unimplemented(
                    Unimplemented::EdgeWeightType(metadata.edge_weight_type),
                ),
            );
        },
    };
    if data_keyword != TSPDataKeyword::NODE_COORD_SECTION {
        return Err(ParserError::Unimplemented(Unimplemented::DataSection(data_keyword)));
    }
    let decimal = is_float_data(file_content, *index_in_map, spatial);
    match parse_node_coord_section(file_content, index_in_map, spatial) {
        Ok(lines) => Ok(NodeCoordSection { spatial, decimal, lines }),
        Err(error) => Err(ParserError::MetaDataParsing(error)),
    }
}

} // verus!
