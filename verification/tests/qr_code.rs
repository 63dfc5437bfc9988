use lib::{ByteMatrix, ErrorCorrectionLevel, Mode, QRCode, Version};

#[test]
fn new_code_has_nothing_chosen() {
    let q = QRCode::new();
    assert!(q.getMode().is_none());
    assert!(q.getECLevel().is_none());
    assert!(q.getVersion().is_none());
    assert_eq!(q.getMaskPattern(), -1);
    assert!(q.getMatrix().is_none());
}

#[test]
fn setters_set_only_their_field() {
    let mut q = QRCode::new();
    q.setMode(Mode::BYTE);
    assert_eq!(*q.getMode(), Some(Mode::BYTE));
    assert!(q.getECLevel().is_none());
    q.setECLevel(ErrorCorrectionLevel::Q);
    assert_eq!(*q.getECLevel(), Some(ErrorCorrectionLevel::Q));
    q.setVersion(Version::getVersionForNumber(5).unwrap());
    assert_eq!(q.getVersion().map(|v| v.getVersionNumber()), Some(5));
    q.setMaskPattern(6);
    assert_eq!(q.getMaskPattern(), 6);
    assert_eq!(*q.getMode(), Some(Mode::BYTE));
    let mut m = ByteMatrix::new(3, 2);
    m.set(1, 1, 1);
    q.setMatrix(m);
    assert_eq!(q.getMatrix().as_ref().map(|m| m.get(1, 1)), Some(1));
}

#[test]
fn mask_pattern_validity() {
    assert!(!QRCode::isValidMaskPattern(-1));
    assert!(QRCode::isValidMaskPattern(0));
    assert!(QRCode::isValidMaskPattern(7));
    assert!(!QRCode::isValidMaskPattern(8));
    assert!(!QRCode::isValidMaskPattern(i32::MIN));
}

#[test]
fn text_without_matrix() {
    let mut q = QRCode::new();
    q.setVersion(Version::getVersionForNumber(1).unwrap());
    assert_eq!(
        q.to_string(),
        "<<\n mode: None\n ecLevel: None\n version: 1\n maskPattern: -1\n matrix: null\n>>\n"
    );
}

#[test]
fn text_with_everything() {
    let mut q = QRCode::new();
    q.setMode(Mode::FNC1_FIRST_POSITION);
    q.setECLevel(ErrorCorrectionLevel::H);
    q.setVersion(Version::getVersionForNumber(27).unwrap());
    q.setMaskPattern(3);
    let mut m = ByteMatrix::new(2, 2);
    m.set(1, 0, 1);
    m.set(0, 1, 2);
    q.setMatrix(m);
    assert_eq!(
        q.to_string(),
        "<<\n mode: Some(FNC1_FIRST_POSITION)\n ecLevel: Some(H)\n version: 27\n maskPattern: 3\n matrix:\n 0 1\n   0\n>>\n"
    );
    q.setMaskPattern(i32::MIN);
    assert!(q.to_string().contains("maskPattern: -2147483648\n"));
}

#[test]
fn byte_matrix_cells() {
    let mut m = ByteMatrix::new(4, 3);
    assert_eq!(m.getWidth(), 4);
    assert_eq!(m.getHeight(), 3);
    assert_eq!(m.get(3, 2), 0);
    m.set(3, 2, 9);
    assert_eq!(m.get(3, 2), 9);
    assert_eq!(m.get(2, 2), 0);
    assert_eq!(m.to_string(), " 0 0 0 0\n 0 0 0 0\n 0 0 0  \n");
}

#[test]
fn names() {
    assert_eq!(Mode::KANJI.name(), "KANJI");
    assert_eq!(Mode::STRUCTURED_APPEND.name(), "STRUCTURED_APPEND");
    assert_eq!(ErrorCorrectionLevel::L.name(), "L");
}

#[test]
fn getters_return_the_last_value_set() {
    let mut q = QRCode::new();
    q.setMaskPattern(8);
    q.setMode(Mode::NUMERIC);
    q.setMaskPattern(-5);
    q.setECLevel(ErrorCorrectionLevel::L);
    q.setMode(Mode::KANJI);
    q.setVersion(Version::getVersionForNumber(2).unwrap());
    q.setVersion(Version::getVersionForNumber(9).unwrap());
    q.setMatrix(ByteMatrix::new(1, 1));
    let mut m = ByteMatrix::new(2, 3);
    m.set(1, 2, 1);
    q.setMatrix(m);
    assert_eq!(*q.getMode(), Some(Mode::KANJI));
    assert_eq!(*q.getECLevel(), Some(ErrorCorrectionLevel::L));
    assert_eq!(q.getVersion().map(|v| v.getVersionNumber()), Some(9));
    assert_eq!(q.getMaskPattern(), -5);
    let matrix = q.getMatrix().as_ref().unwrap();
    assert_eq!((matrix.getWidth(), matrix.getHeight(), matrix.get(1, 2)), (2, 3, 1));
    assert_eq!(*q.getMode(), Some(Mode::KANJI));
}
