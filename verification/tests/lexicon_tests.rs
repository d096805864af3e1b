use game_of_life::lexicon::{get_lexicon, Cell};

fn cells_of(pairs: &[(i32, i32)]) -> Vec<Cell> {
    pairs.iter().map(|&(x, y)| Cell { x, y }).collect()
}

#[test]
fn glider_catalog_parses() {
    let text = "Some preamble prose.\n----\n:Glider:\n\t.*.\n\t..*\n\t***\n\n----\n";
    let lexicon = get_lexicon(text).unwrap();
    assert_eq!(lexicon.terms.len(), 1);
    let term = &lexicon.terms[0];
    assert_eq!(term.name, "Glider");
    assert_eq!(term.cells, cells_of(&[(1, 0), (2, 1), (0, 2), (1, 2), (2, 2)]));
}

#[test]
fn multiple_blocks_preserve_document_order() {
    let text = "intro\n----\n:Alpha:\n\t*\n\n:Beta:\n\t.*\n\nnotes between blocks\n:Gamma:\n\n----\n";
    let lexicon = get_lexicon(text).unwrap();
    let names: Vec<&str> = lexicon.terms.iter().map(|t| t.name.as_str()).collect();
    assert_eq!(names, vec!["Alpha", "Beta", "Gamma"]);
    assert_eq!(lexicon.terms[0].cells, cells_of(&[(0, 0)]));
    assert_eq!(lexicon.terms[1].cells, cells_of(&[(1, 0)]));
    assert!(lexicon.terms[2].cells.is_empty());
}

#[test]
fn empty_term_is_a_valid_placeholder() {
    let text = "----\n:Empty:\n\n:Dot:\n\t*\n\n----\n";
    let lexicon = get_lexicon(text).unwrap();
    let empty = lexicon.get_term("Empty".to_string()).unwrap();
    assert!(empty.cells.is_empty());
    let dot = lexicon.get_term("Dot".to_string()).unwrap();
    assert_eq!(dot.cells.len(), 1);
}

#[test]
fn get_term_returns_first_exact_match_or_absent() {
    let text = "----\n:Twin:\n\t*\n\n:Twin:\n\t.*\n\n----\n";
    let lexicon = get_lexicon(text).unwrap();
    let found = lexicon.get_term("Twin".to_string()).unwrap();
    assert_eq!(found.cells, cells_of(&[(0, 0)]));
    assert!(lexicon.get_term("Twi".to_string()).is_none());
    assert!(lexicon.get_term("twin".to_string()).is_none());
}

#[test]
fn missing_initial_delimiter_fails() {
    let text = "just prose\nwith no delimiter at all\n";
    let err = get_lexicon(text).unwrap_err();
    assert_eq!(err.0, "Unexpected end of input");
}

#[test]
fn unparsable_header_fails() {
    let text = "----\n:NoClosingColon\n\t*\n\n----\n";
    let err = get_lexicon(text).unwrap_err();
    assert_eq!(err.0, "Can't parse term name.");
}

#[test]
fn empty_header_name_fails() {
    let text = "----\n::\n\n----\n";
    let err = get_lexicon(text).unwrap_err();
    assert_eq!(err.0, "Can't parse term name.");
}

#[test]
fn input_ending_inside_a_block_fails() {
    let text = "----\n:Dot:\n\t*";
    let err = get_lexicon(text).unwrap_err();
    assert_eq!(err.0, "Unexpected end of input");
}

#[test]
fn missing_closing_delimiter_fails() {
    let text = "----\n:Dot:\n\t*\n\n";
    let err = get_lexicon(text).unwrap_err();
    assert_eq!(err.0, "Unexpected end of input");
}

#[test]
fn header_keeps_only_text_before_second_colon() {
    let text = "----\n:Name:trailing text\n\t*\n\n----\n";
    let lexicon = get_lexicon(text).unwrap();
    assert_eq!(lexicon.terms[0].name, "Name");
}

#[test]
fn every_character_after_the_tab_is_one_column() {
    let text = "----\n:Spaced:\n\t  *x*\n\n----\n";
    let lexicon = get_lexicon(text).unwrap();
    assert_eq!(lexicon.terms[0].cells, cells_of(&[(2, 0), (4, 0)]));
}

#[test]
fn row_index_advances_only_on_tab_rows() {
    let text = "----\n:Shape:\n\t*\nplain line ignored\n\t.*\n\n----\n";
    let lexicon = get_lexicon(text).unwrap();
    assert_eq!(lexicon.terms[0].cells, cells_of(&[(0, 0), (1, 1)]));
}
