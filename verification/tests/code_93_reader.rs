use lib::one_d_reader::recordPattern;
use lib::{BitArray, Code93Reader, Exceptions};

const ALPHABET: &str = "0123456789ABCDEFGHIJKLMNOPQRSTUVWXYZ-. $/+%abcd*";
const ENCODINGS: [u32; 48] = [
    0x114, 0x148, 0x144, 0x142, 0x128, 0x124, 0x122, 0x150, 0x112, 0x10A, 0x1A8, 0x1A4, 0x1A2,
    0x194, 0x192, 0x18A, 0x168, 0x164, 0x162, 0x134, 0x11A, 0x158, 0x14C, 0x146, 0x12C, 0x116,
    0x1B4, 0x1B2, 0x1AC, 0x1A6, 0x196, 0x19A, 0x16C, 0x166, 0x136, 0x13A, 0x12E, 0x1D4, 0x1D2,
    0x1CA, 0x16E, 0x176, 0x1AE, 0x126, 0x1DA, 0x1D6, 0x132, 0x15E,
];

fn row_of(encoded: &str) -> BitArray {
    let mut row = BitArray::with_size(encoded.chars().count());
    for (i, c) in encoded.chars().enumerate() {
        if c == '1' {
            row.set(i);
        }
    }
    row
}

/// A row holding '*', the given characters, '*' and a closing bar, each module `scale` pixels wide.
fn symbol_row(chars: &str, scale: usize) -> BitArray {
    let mut bits = String::from("00000");
    for c in format!("*{}*", chars).chars() {
        let i = ALPHABET.find(c).unwrap();
        bits.push_str(&format!("{:09b}", ENCODINGS[i]));
    }
    bits.push_str("100000");
    let scaled: String = bits.chars().flat_map(|b| std::iter::repeat(b).take(scale)).collect();
    row_of(&scaled)
}

fn chars(s: &str) -> Vec<char> {
    s.chars().collect()
}

fn do_test(expected: &str, encoded: &str) {
    let mut sut = Code93Reader::new();
    let row = row_of(encoded);
    let result = sut.decodeRow(0, &row).expect("must decode");
    assert_eq!(expected, result.getText());
}

#[test]
fn testDecode() {
    do_test("Code93!\n$%/+ :\u{001b};[{\u{007f}\u{0000}@`\u{007f}\u{007f}\u{007f}",
         "0000001010111101101000101001100101001011001001100101100101001001100101100100101000010101010000101110101101101010001001001101001101001110010101101011101011011101011101101110100101110101101001110101110110101101010001110110101100010101110110101000110101110110101000101101110110101101001101110110101100101101110110101100110101110110101011011001110110101011001101110110101001101101110110101001110101001100101101010001010111101111");
}

#[test]
fn decode_row_reports_geometry() {
    let mut sut = Code93Reader::new();
    let row = symbol_row("CODE93PV", 1);
    let result = sut.decodeRow(7, &row).expect("must decode");
    assert_eq!(result.getText(), "CODE93");
    assert_eq!(result.startBegin, 5);
    assert_eq!(result.startEnd, 14);
    assert_eq!(result.lastStart, 5 + 9 * 9);
    assert_eq!(result.lastPatternSize, 9);
    assert_eq!(result.rowNumber, 7);
}

#[test]
fn decode_row_at_any_module_width() {
    let mut sut = Code93Reader::new();
    let result = sut.decodeRow(0, &symbol_row("ABV-", 3)).expect("must decode");
    assert_eq!(result.getText(), "AB");
    assert_eq!(result.startBegin, 15);
    assert_eq!(result.lastPatternSize, 27);
}

#[test]
fn decode_row_blank_row_is_not_found() {
    let mut sut = Code93Reader::new();
    assert!(matches!(sut.decodeRow(0, &row_of("0000000000")), Err(Exceptions::NotFoundException)));
    assert!(matches!(sut.decodeRow(0, &BitArray::with_size(0)), Err(Exceptions::NotFoundException)));
}

#[test]
fn decode_row_wrong_check_character() {
    let mut sut = Code93Reader::new();
    assert!(matches!(sut.decodeRow(0, &symbol_row("CODE93PW", 1)), Err(Exceptions::ChecksumException)));
}

#[test]
fn decode_row_too_short() {
    let mut sut = Code93Reader::new();
    assert!(matches!(sut.decodeRow(0, &symbol_row("A", 1)), Err(Exceptions::NotFoundException)));
}

#[test]
fn decode_row_broken_extended_pair() {
    // 'd' followed by '1' is no valid pair; "d1" + check characters
    let mut sut = Code93Reader::new();
    let body = "d1";
    let text = with_checks(body);
    assert!(matches!(sut.decodeRow(0, &symbol_row(&text, 1)), Err(Exceptions::FormatException)));
}

#[test]
fn decode_row_missing_stop_character() {
    let mut sut = Code93Reader::new();
    let mut bits = String::from("00000");
    for c in "*AB".chars() {
        let i = ALPHABET.find(c).unwrap();
        bits.push_str(&format!("{:09b}", ENCODINGS[i]));
    }
    bits.push_str("00000");
    assert!(matches!(sut.decodeRow(0, &row_of(&bits)), Err(Exceptions::NotFoundException)));
}

fn check_char(s: &str, weight_max: usize) -> char {
    let mut weight = 1;
    let mut total = 0;
    for c in s.chars().rev() {
        total += weight * ALPHABET.find(c).unwrap();
        weight += 1;
        if weight > weight_max {
            weight = 1;
        }
    }
    ALPHABET.chars().nth(total % 47).unwrap()
}

fn with_checks(s: &str) -> String {
    let first = format!("{}{}", s, check_char(s, 20));
    let second = check_char(&first, 15);
    format!("{}{}", first, second)
}

#[test]
fn check_characters_of_a_message_pass() {
    assert_eq!(with_checks("CODE93"), "CODE93PV");
    for message in ["CODE93", "AB", "TEST93", "HELLO WORLD-12345.$/+%", "0123456789ABCDEFGHIJKLMNOPQRSTUVWXYZ"] {
        let mut sut = Code93Reader::new();
        let result = sut.decodeRow(0, &symbol_row(&with_checks(message), 2)).expect("must decode");
        assert_eq!(result.getText(), message);
    }
}

#[test]
fn check_characters_are_both_checked() {
    let mut sut = Code93Reader::new();
    assert!(matches!(sut.decodeRow(0, &symbol_row("CODE93QV", 1)), Err(Exceptions::ChecksumException)));
    assert!(matches!(sut.decodeRow(0, &symbol_row("CODE93PW", 1)), Err(Exceptions::ChecksumException)));
    // "AB": weights 1 for 'B' (11) and 2 for 'A' (10) give 31, 'V'
    assert_eq!(sut.decodeRow(0, &symbol_row("ABV-", 1)).map(|r| r.getText().clone()), Ok("AB".to_string()));
    assert!(matches!(sut.decodeRow(0, &symbol_row("ABU-", 1)), Err(Exceptions::ChecksumException)));
}

#[test]
fn to_pattern_reads_modules() {
    assert_eq!(Code93Reader::toPattern(&[1, 1, 1, 1, 4, 1]), 0x15E);
    assert_eq!(Code93Reader::toPattern(&[1, 3, 1, 1, 1, 2]), 0x114);
    assert_eq!(Code93Reader::toPattern(&[0, 0, 0, 0, 0, 0]), -1);
    assert_eq!(Code93Reader::toPattern(&[1, 1, 1, 1, 1, 10]), -1);
}

#[test]
fn to_pattern_ignores_module_width() {
    for k in 1..20u32 {
        assert_eq!(Code93Reader::toPattern(&[k, k, k, k, 4 * k, k]), 0x15E);
        assert_eq!(Code93Reader::toPattern(&[k, 3 * k, k, k, k, 2 * k]), 0x114);
    }
}

#[test]
fn to_pattern_rounds_half_up() {
    // 9 * 3 / 18 = 1.5 rounds to 2; 9 * 1 / 18 = 0.5 rounds to 1
    assert_eq!(Code93Reader::toPattern(&[3, 1, 3, 3, 3, 5]), 0b11_0_11_00_11_000);
}

#[test]
fn pattern_to_char_reads_every_character() {
    for (i, c) in ALPHABET.chars().enumerate() {
        assert_eq!(Code93Reader::patternToChar(ENCODINGS[i]), Ok(c));
    }
    assert_eq!(Code93Reader::patternToChar(0x1FF), Err(Exceptions::NotFoundException));
}

#[test]
fn decode_extended_pairs() {
    let d = |s: &str| Code93Reader::decodeExtended(&chars(s)).map(|v| v.into_iter().collect::<String>());
    assert_eq!(d("ABC-12"), Ok("ABC-12".to_string()));
    assert_eq!(d("dAdZ"), Ok("az".to_string()));
    assert_eq!(d("aAaZ"), Ok("\u{1}\u{1a}".to_string()));
    assert_eq!(d("bAbEbFbJbKbObPbT"), Ok("\u{1b}\u{1f};?[_{\u{7f}".to_string()));
    assert_eq!(d("bUbVbWbXbYbZ"), Ok("\u{0}@`\u{7f}\u{7f}\u{7f}".to_string()));
    assert_eq!(d("cAcLcOcZ"), Ok("!,/:".to_string()));
    assert_eq!(d(""), Ok(String::new()));
    assert_eq!(d("Xd"), Err(Exceptions::FormatException));
    assert_eq!(d("d1"), Err(Exceptions::FormatException));
    assert_eq!(d("cP"), Err(Exceptions::FormatException));
    assert_eq!(d("b1"), Err(Exceptions::FormatException));
}

#[test]
fn find_asterisk_pattern_span() {
    let mut sut = Code93Reader::new();
    let row = row_of("0000001010111101101000101001100101001011001001100101100101001001100101100100101000010101010000101110101101101010001001001101001101001110010101101011101011011101011101101110100101110101101001110101110110101101010001110110101100010101110110101000110101110110101000101101110110101101001101110110101100101101110110101100110101110110101011011001110110101011001101110110101001101101110110101001110101001100101101010001010111101111");
    assert_eq!(sut.findAsteriskPattern(&row), Ok([6, 15]));
    // the start character found after a false start two runs later
    let row = row_of("0011010101111010");
    assert_eq!(sut.findAsteriskPattern(&row), Ok([5, 14]));
    let row = row_of("0101011110");
    assert_eq!(sut.findAsteriskPattern(&row), Err(Exceptions::NotFoundException));
    assert_eq!(sut.findAsteriskPattern(&row_of("0000")), Err(Exceptions::NotFoundException));
}

#[test]
fn record_pattern_widths() {
    assert_eq!(recordPattern(&row_of("110100111000"), 0), Ok([2, 1, 1, 2, 3, 3]));
    assert_eq!(recordPattern(&row_of("1101001110001"), 0), Ok([2, 1, 1, 2, 3, 3]));
    assert_eq!(recordPattern(&row_of("0011010001111"), 2), Err(Exceptions::NotFoundException));
    assert_eq!(recordPattern(&row_of("1101001"), 0), Err(Exceptions::NotFoundException));
    assert_eq!(recordPattern(&row_of("110100111000"), 12), Err(Exceptions::NotFoundException));
}

fn stretch(bits: &str, k: usize) -> String {
    bits.chars().flat_map(|b| std::iter::repeat(b).take(k)).collect()
}

#[test]
fn find_asterisk_pattern_scales_with_resolution() {
    let mut sut = Code93Reader::new();
    assert_eq!(sut.findAsteriskPattern(&row_of("1010111101")), Ok([0, 9]));
    assert_eq!(sut.findAsteriskPattern(&row_of("11001100111111110011")), Ok([0, 18]));
    for bits in ["0011010101111010", "0000001010111101101000101", "0101011110", "0000"] {
        let base = sut.findAsteriskPattern(&row_of(bits));
        for k in 1..6usize {
            let scaled = sut.findAsteriskPattern(&row_of(&stretch(bits, k)));
            assert_eq!(scaled, base.map(|[s, e]| [k * s, k * e]));
        }
    }
}

#[test]
fn decoding_depends_only_on_the_row() {
    let row = symbol_row("CODE93PV", 2);
    let mut fresh = Code93Reader::new();
    let mut used = Code93Reader::new();
    assert!(used.decodeRow(3, &symbol_row("CODE93QV", 2)).is_err());
    used.decodeRow(4, &symbol_row("ABV-", 1)).expect("must decode");
    let a = fresh.decodeRow(0, &row).expect("must decode");
    let b = used.decodeRow(9, &row).expect("must decode");
    assert_eq!(a.getText(), b.getText());
    assert_eq!((a.startBegin, a.startEnd, a.lastStart, a.lastPatternSize), (b.startBegin, b.startEnd, b.lastStart, b.lastPatternSize));
    assert_eq!((a.rowNumber, b.rowNumber), (0, 9));
    let bad = symbol_row("CODE93PW", 2);
    assert!(matches!(fresh.decodeRow(1, &bad), Err(Exceptions::ChecksumException)));
    assert!(matches!(used.decodeRow(2, &bad), Err(Exceptions::ChecksumException)));
}
