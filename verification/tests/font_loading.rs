use iso_ui::{load_face, SDFFontError};

#[test]
fn non_font_data_is_refused() {
    match load_face(b"definitely not a font") {
        Err(SDFFontError::Parse(_)) => {},
        Ok(_) => panic!("parsed garbage as a font"),
    }
}

#[test]
fn empty_data_is_refused() {
    assert!(load_face(b"").is_err());
}
