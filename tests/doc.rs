use enprot::doc::{
    begin_marker, blocks_to_string, chunk_value, classify_line, data_marker, document_lines, end_marker,
    parse_document, read_data_line, Block, Marker,
};

const SAMPLE: &str = "Title\n<( BEGIN Agent_007 )>\nsecret\n  <( BEGIN GEHEIM store:ab12 )>\n  inner\n  <( END GEHEIM )>\n<( END Agent_007 )>\ntrailer";

#[test]
fn document_round_trip() {
    let blocks = parse_document(SAMPLE, "<(", ")>").unwrap();
    assert_eq!(blocks_to_string(&blocks), SAMPLE);
    assert_eq!(blocks.len(), 3);
    match &blocks[1] {
        Block::Region(r) => {
            assert_eq!(r.name, "Agent_007");
            assert_eq!(r.opener, "<( BEGIN Agent_007 )>\n");
            assert_eq!(r.closer, "<( END Agent_007 )>\n");
            assert_eq!(r.children.len(), 2);
            match &r.children[1] {
                Block::Region(g) => {
                    assert_eq!(g.name, "GEHEIM");
                    assert_eq!(g.directives, vec!["store:ab12".to_string()]);
                    assert_eq!(g.children.len(), 1);
                }
                Block::Text(_) => panic!("expected a region"),
            }
        }
        Block::Text(_) => panic!("expected a region"),
    }
}

#[test]
fn crlf_is_preserved() {
    let doc = "a\r\n<( BEGIN X )>\r\nb\r\n<( END X )>\r\n";
    let blocks = parse_document(doc, "<(", ")>").unwrap();
    assert_eq!(blocks.len(), 2);
    assert_eq!(blocks_to_string(&blocks), doc);
}

#[test]
fn custom_separators() {
    let doc = "// [[ BEGIN A ]]\nx\n// [[ END A ]]\n";
    let blocks = parse_document(doc, "// [[", "]]").unwrap();
    assert_eq!(blocks.len(), 1);
    let blocks = parse_document(doc, "<(", ")>").unwrap();
    assert_eq!(blocks.len(), 3);
}

#[test]
fn nesting_errors() {
    assert_eq!(
        parse_document("<( BEGIN A )>\n<( END B )>\n", "<(", ")>").err(),
        Some("Mismatched region name")
    );
    assert_eq!(parse_document("<( BEGIN A )>\nx\n", "<(", ")>").err(), Some("Unclosed region"));
    assert_eq!(
        parse_document("x\n<( END A )>\n", "<(", ")>").err(),
        Some("END marker outside any region")
    );
}

#[test]
fn marker_lines() {
    match classify_line("  <(  BEGIN  Name_1  k:v  )>\n", "<(", ")>") {
        Marker::Begin { name, directives } => {
            assert_eq!(name, "Name_1");
            assert_eq!(directives, vec!["k:v".to_string()]);
        }
        _ => panic!("expected BEGIN"),
    }
    match classify_line("<( END Name_1 )>", "<(", ")>") {
        Marker::End { name } => assert_eq!(name, "Name_1"),
        _ => panic!("expected END"),
    }
    assert!(matches!(classify_line("<(BEGIN A )>\n", "<(", ")>"), Marker::NotMarker));
    assert!(matches!(classify_line("<( BEGIN A-B )>\n", "<(", ")>"), Marker::NotMarker));
    assert!(matches!(classify_line("<( BEGIN )>\n", "<(", ")>"), Marker::NotMarker));
    assert!(matches!(classify_line("<( END A x )>\n", "<(", ")>"), Marker::NotMarker));
    assert!(matches!(classify_line("x <( BEGIN A )>\n", "<(", ")>"), Marker::NotMarker));
    assert!(matches!(classify_line("<( DATA abc )>\n", "<(", ")>"), Marker::NotMarker));
}

#[test]
fn lines_of_documents() {
    assert_eq!(document_lines("a\nb\n"), vec!["a\n".to_string(), "b\n".to_string()]);
    assert_eq!(document_lines("a\nb"), vec!["a\n".to_string(), "b".to_string()]);
    assert_eq!(document_lines(""), Vec::<String>::new());
    assert_eq!(document_lines("\n\n"), vec!["\n".to_string(), "\n".to_string()]);
}

#[test]
fn written_markers_read_back() {
    let dirs = vec!["store:ab12".to_string(), "prot:$x$$y$iv=,ad=$".to_string()];
    let open = begin_marker("  ", "<(", ")>", "GEHEIM", &dirs);
    assert_eq!(open, "  <( BEGIN GEHEIM store:ab12 prot:$x$$y$iv=,ad=$ )>\n");
    match classify_line(&open, "<(", ")>") {
        Marker::Begin { name, directives } => {
            assert_eq!(name, "GEHEIM");
            assert_eq!(directives, dirs);
        }
        _ => panic!("expected BEGIN"),
    }
    let close = end_marker("  ", "<(", ")>", "GEHEIM");
    assert_eq!(close, "  <( END GEHEIM )>\n");
    match classify_line(&close, "<(", ")>") {
        Marker::End { name } => assert_eq!(name, "GEHEIM"),
        _ => panic!("expected END"),
    }
    assert_eq!(begin_marker("", "<(", ")>", "A", &vec![]), "<( BEGIN A )>\n");
}

#[test]
fn data_continuation_lines() {
    let value = "X417HVMRRAs6Z1xGo5yY4TxUQ2tpAHEKQ1sg9+kfku5uUikK3y2tODtsUiGqfRGWxUCGYFu02BCdqPM7";
    let pieces = chunk_value(value, 64);
    assert_eq!(pieces.len(), 2);
    assert_eq!(pieces[0].len(), 64);
    assert_eq!(pieces.concat(), value);
    let lines: Vec<String> = pieces.iter().map(|p| data_marker("", "<(", ")>", p)).collect();
    assert_eq!(lines[1], format!("<( DATA {} )>\n", &value[64..]));
    let back: Vec<String> = lines.iter().map(|l| read_data_line(l, "<(", ")>").unwrap()).collect();
    assert_eq!(back.concat(), value);
    assert_eq!(read_data_line("<( BEGIN A )>", "<(", ")>"), None);
    assert!(chunk_value("", 8).is_empty());
    assert_eq!(chunk_value("abc", 1), vec!["a".to_string(), "b".to_string(), "c".to_string()]);
}

#[test]
fn duplicate_directive_keys() {
    assert_eq!(
        parse_document("<( BEGIN A store:ab store:cd )>\n<( END A )>\n", "<(", ")>").err(),
        Some("Duplicate directive key")
    );
    assert!(parse_document("<( BEGIN A store:ab prot:cd )>\n<( END A )>\n", "<(", ")>").is_ok());
}
