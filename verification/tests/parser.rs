use tsp_rust::distance::Distance;
use tsp_rust::held_karp::held_karp;
use tsp_rust::instance::InstanceMetadata;
use tsp_rust::instance::TSPSymInstance;
use tsp_rust::matrix::EdgeDataMatrix;
use tsp_rust::matrix_sym::EdgeDataMatrixSym;
use tsp_rust::node::Node;
use tsp_rust::parser::data_section::is_float_data;
use tsp_rust::parser::data_section::parse_data_sections;
use tsp_rust::parser::data_section::parse_line_to_point;
use tsp_rust::parser::data_section::parse_node_coord_section;
use tsp_rust::parser::data_section::CoordinateLine;
use tsp_rust::parser::data_section::Token;
use tsp_rust::parser::distance_container::compute_dists_from_node_coords;
use tsp_rust::parser::distance_container::compute_dists_from_node_coords_chunk;
use tsp_rust::parser::distance_container::find_row_column_from_lower_triangle_index;
use tsp_rust::parser::distance_container::ParseFromTSPLib;
use tsp_rust::parser::metadata::parse_data_keyword;
use tsp_rust::parser::metadata::parse_metadata;
use tsp_rust::parser::metadata::parse_problem_type;
use tsp_rust::parser::metadata::MetaDataParseError;
use tsp_rust::parser::metadata_builder::InstanceMetadataBuilder;
use tsp_rust::parser::scan_tsp_instance;
use tsp_rust::parser::text::find_byte;
use tsp_rust::parser::text::find_line_end;
use tsp_rust::parser::text::parse_decimal;
use tsp_rust::parser::text::trim;
use tsp_rust::parser::ParserError;
use tsp_rust::parser::Unimplemented;
use tsp_rust::tsp_lib_spec::DisplayDataType;
use tsp_rust::tsp_lib_spec::EdgeDataFormat;
use tsp_rust::tsp_lib_spec::EdgeWeightFormat;
use tsp_rust::tsp_lib_spec::EdgeWeightType;
use tsp_rust::tsp_lib_spec::NodeCoordType;
use tsp_rust::tsp_lib_spec::ProblemType;
use tsp_rust::tsp_lib_spec::TSPDataKeyword;

const SQUARE: &str = "NAME : square\nCOMMENT : four corners and the centre\nTYPE : TSP\nDIMENSION : 5\nEDGE_WEIGHT_TYPE : MAN_2D\nNODE_COORD_SECTION\n1 0 0\n2 0 10\n3 10 10\n4 10 0\n5 5 5\nEOF\n";

fn header_error(text: &str) -> MetaDataParseError {
    let mut index = 0;
    match parse_metadata(text.as_bytes(), &mut index) {
        Err(ParserError::MetaDataParsing(error)) => error,
        other => panic!("expected a fault in the specification part, got {:?}", other),
    }
}

#[test]
fn header_is_read_up_to_the_data_keyword() {
    let mut index = 0;
    let (metadata, keyword) = parse_metadata(SQUARE.as_bytes(), &mut index).unwrap();
    assert_eq!(metadata.name, "square");
    assert_eq!(metadata.comment.as_deref(), Some("four corners and the centre"));
    assert_eq!(metadata.problem_type, ProblemType::TSP);
    assert_eq!(metadata.dimension, 5);
    assert_eq!(metadata.capacity, None);
    assert_eq!(metadata.edge_weight_type, EdgeWeightType::MAN_2D);
    assert_eq!(metadata.edge_weight_format, None);
    assert_eq!(metadata.edge_data_format, None);
    assert_eq!(metadata.node_coord_type, NodeCoordType::NO_COORDS);
    assert_eq!(metadata.display_data_type, None);
    assert_eq!(keyword, TSPDataKeyword::NODE_COORD_SECTION);
    assert_eq!(&SQUARE.as_bytes()[index..index + 5], b"1 0 0");
}

#[test]
fn header_takes_every_entry_and_windows_line_ends() {
    let text = "NAME: all\r\nTYPE: CVRP\r\nDIMENSION: +12\r\nCAPACITY: 30\r\nEDGE_WEIGHT_TYPE: EXPLICIT\r\nEDGE_WEIGHT_FORMAT: LOWER_DIAG_ROW\r\nEDGE_DATA_FORMAT: ADJ_LIST\r\nNODE_COORD_TYPE: THREED_COORDS\r\nDISPLAY_DATA_TYPE: TWOD_DISPLAY\r\nNAME: last wins\r\nEDGE_WEIGHT_SECTION\r\n";
    let mut index = 0;
    let (metadata, keyword) = parse_metadata(text.as_bytes(), &mut index).unwrap();
    assert_eq!(metadata.name, "last wins");
    assert_eq!(metadata.problem_type, ProblemType::CVRP);
    assert_eq!(metadata.dimension, 12);
    assert_eq!(metadata.capacity, Some(30));
    assert_eq!(metadata.edge_weight_type, EdgeWeightType::EXPLICIT);
    assert_eq!(metadata.edge_weight_format, Some(EdgeWeightFormat::LOWER_DIAG_ROW));
    assert_eq!(metadata.edge_data_format, Some(EdgeDataFormat::ADJ_LIST));
    assert_eq!(metadata.node_coord_type, NodeCoordType::THREED_COORDS);
    assert_eq!(metadata.display_data_type, Some(DisplayDataType::TWOD_DISPLAY));
    assert_eq!(keyword, TSPDataKeyword::EDGE_WEIGHT_SECTION);
    assert_eq!(index, text.len());
}

#[test]
fn header_faults_are_told_apart() {
    assert!(matches!(
        header_error("NAME : x\nTYPE : TSP"),
        MetaDataParseError::InvalidInput(text) if text == "Unexpected end of file"
    ));
    assert!(matches!(
        header_error("TITLE : x\n"),
        MetaDataParseError::InvalidKeyword(text) if text == "TITLE"
    ));
    assert!(matches!(
        header_error("NAME : x\nSOME_SECTION\n"),
        MetaDataParseError::InvalidKeyword(text) if text == "SOME_SECTION"
    ));
    assert!(matches!(
        header_error("TYPE : PUZZLE\n"),
        MetaDataParseError::InvalidProblemType(text) if text == "PUZZLE"
    ));
    assert!(matches!(
        header_error("DIMENSION : many\n"),
        MetaDataParseError::InvalidDimension(text) if text == "many"
    ));
    assert!(matches!(
        header_error("DIMENSION : 0\n"),
        MetaDataParseError::InvalidDimension(text) if text == "0"
    ));
    assert!(matches!(
        header_error("DIMENSION : 99999999999999999999999999\n"),
        MetaDataParseError::InvalidDimension(_)
    ));
    assert!(matches!(
        header_error("CAPACITY : -3\n"),
        MetaDataParseError::InvalidCapacity(text) if text == "-3"
    ));
    assert!(matches!(
        header_error("EDGE_WEIGHT_TYPE : EUC_4D\n"),
        MetaDataParseError::InvalidEdgeWeightType(text) if text == "EUC_4D"
    ));
    assert!(matches!(
        header_error("EDGE_WEIGHT_FORMAT : DIAGONAL\n"),
        MetaDataParseError::InvalidEdgeWeightFormat(text) if text == "DIAGONAL"
    ));
    assert!(matches!(
        header_error("EDGE_DATA_FORMAT : LIST\n"),
        MetaDataParseError::InvalidEdgeDataFormat(text) if text == "LIST"
    ));
    assert!(matches!(
        header_error("NODE_COORD_TYPE : FOURD_COORDS\n"),
        MetaDataParseError::InvalidNodeCoordType(text) if text == "FOURD_COORDS"
    ));
    assert!(matches!(
        header_error("DISPLAY_DATA_TYPE : HOLOGRAM\n"),
        MetaDataParseError::InvalidDisplayDataType(text) if text == "HOLOGRAM"
    ));
}

#[test]
fn required_entries_are_asked_for_in_order() {
    let cases = [
        ("NODE_COORD_SECTION\n", "name is required"),
        ("NAME : x\nNODE_COORD_SECTION\n", "problem_type is required"),
        ("NAME : x\nTYPE : TSP\nNODE_COORD_SECTION\n", "dimension is required"),
        (
            "NAME : x\nTYPE : TSP\nDIMENSION : 3\nNODE_COORD_SECTION\n",
            "edge_weight_type is required",
        ),
    ];
    for (text, message) in cases {
        assert!(matches!(
            header_error(text),
            MetaDataParseError::InstanceMetadataBuilderError(error) if error.0 == message
        ));
    }
}

#[test]
fn builder_collects_entries_by_value_and_in_place() {
    let metadata = InstanceMetadataBuilder::new()
        .name("a".to_string())
        .problem_type(ProblemType::TSP)
        .comment("c".to_string())
        .dimension(7)
        .capacity(3)
        .edge_weight_type(EdgeWeightType::ATT)
        .edge_weight_format(EdgeWeightFormat::FUNCTION)
        .edge_data_format(EdgeDataFormat::EDGE_LIST)
        .node_coord_type(NodeCoordType::TWOD_COORDS)
        .display_data_type(DisplayDataType::NO_DISPLAY)
        .build()
        .unwrap();
    assert_eq!(metadata.name, "a");
    assert_eq!(metadata.comment.as_deref(), Some("c"));
    assert_eq!(metadata.dimension, 7);
    assert_eq!(metadata.capacity, Some(3));
    assert_eq!(metadata.edge_weight_type, EdgeWeightType::ATT);
    assert_eq!(metadata.edge_weight_format, Some(EdgeWeightFormat::FUNCTION));
    assert_eq!(metadata.edge_data_format, Some(EdgeDataFormat::EDGE_LIST));
    assert_eq!(metadata.node_coord_type, NodeCoordType::TWOD_COORDS);
    assert_eq!(metadata.display_data_type, Some(DisplayDataType::NO_DISPLAY));

    let mut builder = InstanceMetadataBuilder::default();
    builder
        .name_mut("b".to_string())
        .problem_type_mut(ProblemType::ATSP)
        .dimension_mut(2)
        .edge_weight_type_mut(EdgeWeightType::GEO);
    builder.comment_mut("d".to_string());
    builder.capacity_mut(1);
    builder.edge_weight_format_mut(EdgeWeightFormat::UPPER_ROW);
    builder.edge_data_format_mut(EdgeDataFormat::ADJ_LIST);
    builder.node_coord_type_mut(NodeCoordType::NO_COORDS);
    builder.display_data_type_mut(DisplayDataType::COORD_DISPLAY);
    let metadata = builder.build().unwrap();
    assert_eq!(metadata.name, "b");
    assert_eq!(metadata.problem_type, ProblemType::ATSP);
    assert_eq!(metadata.dimension, 2);
    assert_eq!(metadata.display_data_type, Some(DisplayDataType::COORD_DISPLAY));
}

#[test]
fn words_are_read_exactly() {
    assert_eq!(parse_problem_type(b"xTSPx", 1, 4).unwrap(), ProblemType::TSP);
    assert!(parse_problem_type(b"tsp", 0, 3).is_err());
    assert_eq!(
        parse_data_keyword(b"EDGE_WEIGHT_SECTION", 0, 19).unwrap(),
        TSPDataKeyword::EDGE_WEIGHT_SECTION
    );
    assert_eq!(
        parse_data_keyword(b" TOUR_SECTION ", 1, 13).unwrap(),
        TSPDataKeyword::TOUR_SECTION
    );
    assert!(matches!(
        parse_data_keyword(b"NODE_COORD_SECTIO", 0, 17),
        Err(ParserError::MetaDataParsing(MetaDataParseError::InvalidKeyword(text)))
            if text == "NODE_COORD_SECTIO"
    ));
}

#[test]
fn fixed_edges_sections_are_not_read() {
    assert!(matches!(
        parse_data_keyword(b"FIXED_EDGES_SECTION", 0, 19),
        Err(ParserError::Unimplemented(Unimplemented::DataSection(
            TSPDataKeyword::FIXED_EDGES_SECTION
        )))
    ));
    let text = b"NAME : x\nTYPE : TSP\nDIMENSION : 3\nEDGE_WEIGHT_TYPE : EUC_2D\nFIXED_EDGES_SECTION\n1 2\n-1\n";
    let mut index = 0;
    assert!(matches!(
        parse_metadata(text, &mut index),
        Err(ParserError::Unimplemented(Unimplemented::DataSection(
            TSPDataKeyword::FIXED_EDGES_SECTION
        )))
    ));
    assert_eq!(index, 80);
    assert!(matches!(
        scan_tsp_instance(text),
        Err(ParserError::Unimplemented(Unimplemented::DataSection(
            TSPDataKeyword::FIXED_EDGES_SECTION
        )))
    ));
    let mut index = 0;
    assert!(matches!(
        parse_metadata(b"FIXED_EDGES_SECTION\n", &mut index),
        Err(ParserError::Unimplemented(Unimplemented::DataSection(
            TSPDataKeyword::FIXED_EDGES_SECTION
        )))
    ));
}

#[test]
fn text_helpers_find_lines_tokens_and_numbers() {
    let text = b"ab\ncd";
    assert_eq!(find_line_end(text, 0), (2, true));
    assert_eq!(find_line_end(text, 3), (5, false));
    assert_eq!(find_byte(b"key: a:b", b':', 0, 8), 3);
    assert_eq!(find_byte(b"key: a:b", b':', 4, 8), 6);
    assert_eq!(find_byte(b"key: a:b", b':', 7, 8), 8);
    assert_eq!(trim(b"  a b \t\r", 0, 8), (2, 5));
    assert_eq!(trim(b"    ", 0, 4), (4, 4));
    assert_eq!(parse_decimal(b"x123y", 1, 4), Some(123));
    assert_eq!(parse_decimal(b"+7", 0, 2), Some(7));
    assert_eq!(parse_decimal(b"+", 0, 1), None);
    assert_eq!(parse_decimal(b"", 0, 0), None);
    assert_eq!(parse_decimal(b"12a", 0, 3), None);
    assert_eq!(parse_decimal(b"-1", 0, 2), None);
    let most = usize::MAX.to_string();
    assert_eq!(parse_decimal(most.as_bytes(), 0, most.len()), Some(usize::MAX));
    let more = format!("{}0", most);
    assert_eq!(parse_decimal(more.as_bytes(), 0, more.len()), None);
}

#[test]
fn coordinates_are_found_behind_the_node_number() {
    let line = b"  12   3.5\t-4e2  9 ";
    let planar = parse_line_to_point(line, 0, line.len(), false).unwrap();
    assert_eq!(&line[planar.x.start..planar.x.end], b"3.5");
    assert_eq!(&line[planar.y.start..planar.y.end], b"-4e2");
    assert_eq!(planar.z, None);
    let spatial = parse_line_to_point(line, 0, line.len(), true).unwrap();
    let z = spatial.z.unwrap();
    assert_eq!(&line[z.start..z.end], b"9");
    assert_eq!(parse_line_to_point(b"1 2", 0, 3, false), None);
    assert_eq!(parse_line_to_point(b"1 2 3", 0, 5, true), None);
    assert_eq!(
        parse_line_to_point(b"1 2 3", 0, 5, false),
        Some(CoordinateLine {
            x: Token { start: 2, end: 3 },
            y: Token { start: 4, end: 5 },
            z: None,
        })
    );
}

#[test]
fn section_ends_at_eof_an_empty_line_or_the_end_of_the_input() {
    let mut index = 0;
    let lines = parse_node_coord_section(b"1 1 2\n2 3 4\nEOF\n3 5 6\n", &mut index, false).unwrap();
    assert_eq!(lines.len(), 2);
    assert_eq!(index, 16);
    let mut index = 0;
    let lines = parse_node_coord_section(b"1 1 2\n\n2 3 4\n", &mut index, false).unwrap();
    assert_eq!(lines.len(), 1);
    assert_eq!(index, 7);
    let mut index = 0;
    let lines = parse_node_coord_section(b"1 1 2\n2 3 4", &mut index, false).unwrap();
    assert_eq!(lines.len(), 2);
    assert_eq!(index, 11);
    let mut index = 0;
    let fault = parse_node_coord_section(b"1 1 2\n2 3\n3 4 5\n", &mut index, false);
    assert!(matches!(fault, Err(MetaDataParseError::InvalidInput(text)) if text == "2 3"));
    assert_eq!(index, 10);
}

#[test]
fn decimal_points_are_looked_for_on_the_first_line() {
    assert!(!is_float_data(b"1 10 20\n2 1.5 2\n", 0, false));
    assert!(is_float_data(b"1 10.0 20\n", 0, false));
    assert!(is_float_data(b"1 10 20.5\n", 0, false));
    assert!(is_float_data(b"1 10 20 3.5\n", 0, true));
    assert!(!is_float_data(b"1 10 20 3.5\n", 0, false));
    assert!(!is_float_data(b"1.0 10 20\n", 0, false));
}

fn metadata_of(problem_type: ProblemType, edge_weight_type: EdgeWeightType) -> InstanceMetadata {
    InstanceMetadataBuilder::new()
        .name("x".to_string())
        .problem_type(problem_type)
        .dimension(2)
        .edge_weight_type(edge_weight_type)
        .build()
        .unwrap()
}

#[test]
fn what_is_not_read_is_named() {
    let text = b"1 0 0\n2 1 1\n";
    let mut index = 0;
    let fault = parse_data_sections(
        text,
        &mut index,
        TSPDataKeyword::NODE_COORD_SECTION,
        &metadata_of(ProblemType::ATSP, EdgeWeightType::EUC_2D),
    );
    assert!(matches!(
        fault,
        Err(ParserError::Unimplemented(Unimplemented::ProblemType(ProblemType::ATSP)))
    ));
    for kind in [
        EdgeWeightType::EXPLICIT,
        EdgeWeightType::XRAY1,
        EdgeWeightType::XRAY2,
        EdgeWeightType::SPECIAL,
    ] {
        let fault = parse_data_sections(
            text,
            &mut index,
            TSPDataKeyword::NODE_COORD_SECTION,
            &metadata_of(ProblemType::TSP, kind),
        );
        assert!(matches!(
            fault,
            Err(ParserError::Unimplemented(Unimplemented::EdgeWeightType(found))) if found == kind
        ));
    }
    let fault = parse_data_sections(
        text,
        &mut index,
        TSPDataKeyword::FIXED_EDGES_SECTION,
        &metadata_of(ProblemType::TSP, EdgeWeightType::EUC_2D),
    );
    assert!(matches!(
        fault,
        Err(ParserError::Unimplemented(Unimplemented::DataSection(
            TSPDataKeyword::FIXED_EDGES_SECTION
        )))
    ));
    assert_eq!(index, 0);
    let section = parse_data_sections(
        text,
        &mut index,
        TSPDataKeyword::NODE_COORD_SECTION,
        &metadata_of(ProblemType::TSP, EdgeWeightType::EUC_3D),
    );
    assert!(matches!(
        section,
        Err(ParserError::MetaDataParsing(MetaDataParseError::InvalidInput(text))) if text == "1 0 0"
    ));
    let mut index = 0;
    let section = parse_data_sections(
        text,
        &mut index,
        TSPDataKeyword::NODE_COORD_SECTION,
        &metadata_of(ProblemType::TSP, EdgeWeightType::GEO),
    )
    .unwrap();
    assert!(!section.spatial);
    assert!(!section.decimal);
    assert_eq!(section.lines.len(), 2);
}

#[test]
fn cells_of_the_lower_triangle_are_found_by_number() {
    let mut index = 0;
    for row in 0..60 {
        for column in 0..=row {
            assert_eq!(find_row_column_from_lower_triangle_index(index), (row, column));
            index += 1;
        }
    }
    assert_eq!(
        find_row_column_from_lower_triangle_index(20_000 * 20_001 / 2 + 12_345),
        (20_000, 12_345)
    );
    let (row, column) = find_row_column_from_lower_triangle_index(usize::MAX);
    assert!(column <= row);
    assert_eq!((row as u128 * (row as u128 + 1) / 2 + column as u128) as usize, usize::MAX);
}

fn manhattan(a: &(i32, i32), b: &(i32, i32)) -> Distance {
    Distance((a.0 - b.0).abs() + (a.1 - b.1).abs())
}

#[test]
fn one_chunk_fills_its_cells_only() {
    let points = vec![(0, 0), (1, 0), (3, 0), (6, 0)];
    let mut data = vec![Distance(-1); 16];
    // The cells 2 to 6 of the lower triangle: (1,1), (2,0), (2,1), (2,2), (3,0).
    compute_dists_from_node_coords_chunk(&mut data, &points, 2, 5, &manhattan, 4);
    let mut expected = vec![Distance(-1); 16];
    expected[8] = Distance(3);
    expected[9] = Distance(2);
    expected[12] = Distance(6);
    assert_eq!(data, expected);
}

#[test]
fn full_matrix_does_not_depend_on_the_number_of_chunks() {
    let points: Vec<(i32, i32)> = (0..320).map(|i| ((i * 37) % 101, (i * 53) % 89)).collect();
    let single = compute_dists_from_node_coords(&points, points.len(), manhattan, 1);
    for workers in [0, 2, 3, 7, 64, 100_000] {
        let chunked = compute_dists_from_node_coords(&points, points.len(), manhattan, workers);
        assert_eq!(chunked.data, single.data);
    }
    assert_eq!(single.get_data(Node(5), Node(5)), Distance(0));
    assert_eq!(single.get_data(Node(7), Node(3)), manhattan(&points[7], &points[3]));
    assert_eq!(single.get_data(Node(3), Node(7)), manhattan(&points[7], &points[3]));
}

#[test]
fn symmetric_and_full_target_agree() {
    let points: Vec<(i32, i32)> = (0..40).map(|i| ((i * 37) % 101, (i * 53) % 89)).collect();
    let metadata = InstanceMetadataBuilder::new()
        .name("agree".to_string())
        .problem_type(ProblemType::TSP)
        .dimension(points.len())
        .edge_weight_type(EdgeWeightType::MAN_2D)
        .build()
        .unwrap();
    let full: EdgeDataMatrix<Distance> =
        ParseFromTSPLib::from_node_coord_section(&points, &metadata, manhattan);
    let sym: EdgeDataMatrixSym<Distance> =
        ParseFromTSPLib::from_node_coord_section(&points, &metadata, manhattan);
    for u in 0..points.len() {
        for v in 0..points.len() {
            assert_eq!(full.get_data(Node(u), Node(v)), sym.get_data(Node(u), Node(v)));
        }
    }
    assert_eq!(sym.to_edge_data_matrix().data, full.data);
    let instance = TSPSymInstance::new_from_distances_sym(sym, metadata);
    assert_eq!(instance.metadata().name, "agree");
    assert_eq!(instance.raw_distances().len(), 40 * 41 / 2);
    assert_eq!(instance.raw_distances()[4], manhattan(&points[2], &points[1]));
    let rebuilt = TSPSymInstance::new_from_raw_data(
        instance.raw_distances().to_vec(),
        instance.metadata().clone(),
    );
    assert_eq!(rebuilt.distances().data, instance.distances().data);
}

#[test]
fn instance_text_is_read_and_solved() {
    let text = SQUARE.as_bytes();
    let (metadata, section) = scan_tsp_instance(text).unwrap();
    assert_eq!(metadata.dimension, 5);
    assert!(!section.spatial);
    assert!(!section.decimal);
    let points: Vec<(i32, i32)> = section
        .lines
        .iter()
        .map(|line| {
            let x = parse_decimal(text, line.x.start, line.x.end).unwrap();
            let y = parse_decimal(text, line.y.start, line.y.end).unwrap();
            (x as i32, y as i32)
        })
        .collect();
    assert_eq!(points, vec![(0, 0), (0, 10), (10, 10), (10, 0), (5, 5)]);
    let distances: EdgeDataMatrix<Distance> =
        ParseFromTSPLib::from_node_coord_section(&points, &metadata, manhattan);
    let tour = held_karp(&distances).unwrap();
    assert_eq!(tour.cost, Distance(50));
}

#[test]
fn instance_text_faults_come_in_order() {
    assert!(matches!(
        scan_tsp_instance(b"NAME : x\n"),
        Err(ParserError::MetaDataParsing(MetaDataParseError::InvalidInput(_)))
    ));
    assert!(matches!(
        scan_tsp_instance(
            b"NAME : x\nTYPE : HCP\nDIMENSION : 2\nEDGE_WEIGHT_TYPE : SPECIAL\nTOUR_SECTION\n"
        ),
        Err(ParserError::Unimplemented(Unimplemented::ProblemType(ProblemType::HCP)))
    ));
    assert!(matches!(
        scan_tsp_instance(
            b"NAME : x\nTYPE : TSP\nDIMENSION : 2\nEDGE_WEIGHT_TYPE : EUC_2D\nNODE_COORD_SECTION\n1 5\n"
        ),
        Err(ParserError::MetaDataParsing(MetaDataParseError::InvalidInput(text))) if text == "1 5"
    ));
}
