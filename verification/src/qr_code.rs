use vstd::prelude::*;

use crate::text::push_char;
use crate::version::Version;
use vstd::string::StringExecFns;

verus! {

/// The number of data mask patterns a QR Code may use.
pub const NUM_MASK_PATTERNS: i32 = 8;

/// How a segment of QR Code data is encoded.
#[derive(Debug, Clone, Copy, PartialEq, Eq, Structural)]
pub enum Mode {
    TERMINATOR,
    NUMERIC,
    ALPHANUMERIC,
    STRUCTURED_APPEND,
    BYTE,
    ECI,
    KANJI,
    FNC1_FIRST_POSITION,
    FNC1_SECOND_POSITION,
    HANZI,
}

/// The four error correction levels of QR Code, from lowest to highest.
#[derive(Debug, Clone, Copy, PartialEq, Eq, Structural)]
pub enum ErrorCorrectionLevel {
    L,
    M,
    Q,
    H,
}

/// The name of a mode.
pub open spec fn mode_name(m: Mode) -> Seq<char> {
    match m {
        Mode::TERMINATOR => "TERMINATOR"@,
        Mode::NUMERIC => "NUMERIC"@,
        Mode::ALPHANUMERIC => "ALPHANUMERIC"@,
        Mode::STRUCTURED_APPEND => "STRUCTURED_APPEND"@,
        Mode::BYTE => "BYTE"@,
        Mode::ECI => "ECI"@,
        Mode::KANJI => "KANJI"@,
        Mode::FNC1_FIRST_POSITION => "FNC1_FIRST_POSITION"@,
        Mode::FNC1_SECOND_POSITION => "FNC1_SECOND_POSITION"@,
        Mode::HANZI => "HANZI"@,
    }
}

/// The name of an error correction level.
pub open spec fn level_name(l: ErrorCorrectionLevel) -> Seq<char> {
    match l {
        ErrorCorrectionLevel::L => "L"@,
        ErrorCorrectionLevel::M => "M"@,
        ErrorCorrectionLevel::Q => "Q"@,
        ErrorCorrectionLevel::H => "H"@,
    }
}

/// An optional value as text: `Some(name)` or `None`.
pub open spec fn optional_text(name: Option<Seq<char>>) -> Seq<char> {
    match name {
        Some(n) => "Some("@ + n + ")"@,
        None => "None"@,
    }
}

/// The decimal digit character of `d`, for `d` from 0 to 9.
pub open spec fn digit_char(d: int) -> char {
    (('0' as u32) + d) as char
}

/// The decimal representation of `n`, without leading zeros.
pub open spec fn decimal(n: nat) -> Seq<char>
    decreases n,
{
    if n < 10 {
        seq![digit_char(n as int)]
    } else {
        decimal(n / 10).push(digit_char((n % 10) as int))
    }
}

/// The decimal representation of `x`, with a leading '-' when it is negative.
pub open spec fn signed_decimal(x: int) -> Seq<char> {
    if x < 0 {
        seq!['-'] + decimal((-x) as nat)
    } else {
        decimal(x as nat)
    }
}

/// The number that a string of decimal digits stands for.
pub open spec fn digits_value(s: Seq<char>) -> int
    decreases s.len(),
{
    if s.len() == 0 {
        0
    } else {
        digits_value(s.drop_last()) * 10 + (s.last() as int - '0' as int)
    }
}

/// The decimal text of `n` is made of digits only, stands for `n`, and has no leading zero.
pub proof fn lemma_decimal_reads_back(n: nat)
    ensures
        forall|i: int| 0 <= i < decimal(n).len() ==> '0' <= #[trigger] decimal(n)[i] <= '9',
        digits_value(decimal(n)) == n,
        decimal(n).len() >= 1,
        decimal(n)[0] == '0' ==> n == 0,
    decreases n,
{
    let d = (n % 10) as int;
    assert(digit_char(d) as int == '0' as int + d);
    if n >= 10 {
        lemma_decimal_reads_back(n / 10);
        let prefix = decimal(n / 10);
        assert(decimal(n).drop_last() =~= prefix);
        assert(decimal(n)[0] == prefix[0]);
        vstd::arithmetic::div_mod::lemma_fundamental_div_mod(n as int, 10);
        assert(decimal(n).last() == digit_char(d));
        assert(digits_value(decimal(n)) == digits_value(prefix) * 10 + d);
        assert(n == 10 * (n / 10) + d);
    } else {
        assert(decimal(n).last() == digit_char(n as int));
        assert(digits_value(Seq::<char>::empty()) == 0);
        assert(digit_char(n as int) as int == '0' as int + n);
        assert(decimal(n).drop_last() =~= Seq::<char>::empty());
    }
}

/// The signed decimal text of `x` starts with '-' exactly when `x` is negative, and the rest
/// is the decimal text of its magnitude.
pub proof fn lemma_signed_decimal(x: int)
    ensures
        x < 0 ==> signed_decimal(x)[0] == '-' && signed_decimal(x).drop_first() == decimal((-x) as nat),
        x >= 0 ==> signed_decimal(x) == decimal(x as nat) && signed_decimal(x)[0] != '-',
{
    if x < 0 {
        assert((seq!['-'] + decimal((-x) as nat)).drop_first() =~= decimal((-x) as nat));
    } else {
        lemma_decimal_reads_back(x as nat);
    }
}

/// Each error correction level is shown by its own one-letter name, and no two levels share a
/// name.
pub proof fn lemma_level_names(a: ErrorCorrectionLevel, b: ErrorCorrectionLevel)
    ensures
        level_name(ErrorCorrectionLevel::L) == seq!['L'],
        level_name(ErrorCorrectionLevel::M) == seq!['M'],
        level_name(ErrorCorrectionLevel::Q) == seq!['Q'],
        level_name(ErrorCorrectionLevel::H) == seq!['H'],
        level_name(a) == level_name(b) ==> a == b,
{
    reveal_strlit("L");
    reveal_strlit("M");
    reveal_strlit("Q");
    reveal_strlit("H");
    assert(level_name(ErrorCorrectionLevel::L) =~= seq!['L']);
    assert(level_name(ErrorCorrectionLevel::M) =~= seq!['M']);
    assert(level_name(ErrorCorrectionLevel::Q) =~= seq!['Q']);
    assert(level_name(ErrorCorrectionLevel::H) =~= seq!['H']);
    if level_name(a) == level_name(b) {
        assert(level_name(a)[0] == level_name(b)[0]);
    }
}

/// Each mode is shown by its own name, and no two modes share a name.
pub proof fn lemma_mode_names(a: Mode, b: Mode)
    ensures
        mode_name(Mode::TERMINATOR) =~= seq!['T', 'E', 'R', 'M', 'I', 'N', 'A', 'T', 'O', 'R'],
        mode_name(Mode::NUMERIC) =~= seq!['N', 'U', 'M', 'E', 'R', 'I', 'C'],
        mode_name(Mode::ALPHANUMERIC) =~= seq!['A', 'L', 'P', 'H', 'A', 'N', 'U', 'M', 'E', 'R', 'I', 'C'],
        mode_name(Mode::STRUCTURED_APPEND) =~= seq![
            'S', 'T', 'R', 'U', 'C', 'T', 'U', 'R', 'E', 'D', '_', 'A', 'P', 'P', 'E', 'N', 'D',
        ],
        mode_name(Mode::BYTE) =~= seq!['B', 'Y', 'T', 'E'],
        mode_name(Mode::ECI) =~= seq!['E', 'C', 'I'],
        mode_name(Mode::KANJI) =~= seq!['K', 'A', 'N', 'J', 'I'],
        mode_name(Mode::FNC1_FIRST_POSITION) =~= seq![
            'F', 'N', 'C', '1', '_', 'F', 'I', 'R', 'S', 'T', '_', 'P', 'O', 'S', 'I', 'T', 'I', 'O', 'N',
        ],
        mode_name(Mode::FNC1_SECOND_POSITION) =~= seq![
            'F', 'N', 'C', '1', '_', 'S', 'E', 'C', 'O', 'N', 'D', '_', 'P', 'O', 'S', 'I', 'T', 'I', 'O',
            'N',
        ],
        mode_name(Mode::HANZI) =~= seq!['H', 'A', 'N', 'Z', 'I'],
        mode_name(a) == mode_name(b) ==> a == b,
{
    reveal_strlit("TERMINATOR");
    reveal_strlit("NUMERIC");
    reveal_strlit("ALPHANUMERIC");
    reveal_strlit("STRUCTURED_APPEND");
    reveal_strlit("BYTE");
    reveal_strlit("ECI");
    reveal_strlit("KANJI");
    reveal_strlit("FNC1_FIRST_POSITION");
    reveal_strlit("FNC1_SECOND_POSITION");
    reveal_strlit("HANZI");
    if mode_name(a) == mode_name(b) && a != b {
        assert(mode_name(a).len() == mode_name(b).len());
        assert(mode_name(a)[0] == mode_name(b)[0]);
        assert(mode_name(a)[1] == mode_name(b)[1]);
        assert(mode_name(a)[5] == mode_name(b)[5]);
    }
}

/// Appends the decimal representation of `n`.
fn push_decimal(s: &mut String, n: u64)
    ensures
        final(s)@ == old(s)@ + decimal(n as nat),
    decreases n,
{
    if n >= 10 {
        push_decimal(s, n / 10);
    }
    let d: u8 = (n % 10) as u8;
    push_char(s, ('0' as u8 + d) as char);
    proof {
        if n >= 10 {
            assert(old(s)@ + decimal(n as nat) =~= old(s)@ + decimal((n / 10) as nat) + seq![
                digit_char((n % 10) as int),
            ]);
        } else {
            assert(old(s)@ + decimal(n as nat) =~= old(s)@.push(digit_char(n as int)));
        }
    }
}

impl Mode {
    /// The mode's name.
    pub fn name(&self) -> (r: &'static str)
        ensures
            r@ == mode_name(*self),
    {
        match self {
            Mode::TERMINATOR => "TERMINATOR",
            Mode::NUMERIC => "NUMERIC",
            Mode::ALPHANUMERIC => "ALPHANUMERIC",
            Mode::STRUCTURED_APPEND => "STRUCTURED_APPEND",
            Mode::BYTE => "BYTE",
            Mode::ECI => "ECI",
            Mode::KANJI => "KANJI",
            Mode::FNC1_FIRST_POSITION => "FNC1_FIRST_POSITION",
            Mode::FNC1_SECOND_POSITION => "FNC1_SECOND_POSITION",
            Mode::HANZI => "HANZI",
        }
    }
}

impl ErrorCorrectionLevel {
    /// The level's name.
    pub fn name(&self) -> (r: &'static str)
        ensures
            r@ == level_name(*self),
    {
        match self {
            ErrorCorrectionLevel::L => "L",
            ErrorCorrectionLevel::M => "M",
            ErrorCorrectionLevel::Q => "Q",
            ErrorCorrectionLevel::H => "H",
        }
    }
}

/// Appends `Some(name)` or `None`.
fn push_optional_name(s: &mut String, name: Option<&str>)
    ensures
        final(s)@ == old(s)@ + optional_text(
            match name {
                Some(n) => Some(n@),
                None => None,
            },
        ),
{
    match name {
        Some(n) => {
            s.append("Some(");
            s.append(n);
            s.append(")");
            assert(final(s)@ =~= old(s)@ + ("Some("@ + n@ + ")"@));
        },
        None => {
            s.append("None");
        },
    }
}

/// How one cell of a matrix is shown: " 0", " 1", or two spaces when it is not yet set.
pub open spec fn cell_text(b: u8) -> Seq<char> {
    if b == 0 {
        " 0"@
    } else if b == 1 {
        " 1"@
    } else {
        "  "@
    }
}

/// How one row of a matrix is shown.
pub open spec fn row_text(r: Seq<u8>) -> Seq<char>
    decreases r.len(),
{
    if r.len() == 0 {
        Seq::empty()
    } else {
        row_text(r.drop_last()) + cell_text(r.last())
    }
}

/// How a matrix is shown: each row on a line of its own.
pub open spec fn matrix_text(rows: Seq<Seq<u8>>) -> Seq<char>
    decreases rows.len(),
{
    if rows.len() == 0 {
        Seq::empty()
    } else {
        matrix_text(rows.drop_last()) + row_text(rows.last()) + seq!['\n']
    }
}

/// A matrix of cells, each 0, 1, or not yet set (any other value), as the encoder fills it.
pub struct ByteMatrix {
    bytes: Vec<Vec<u8>>,
    width: u32,
    height: u32,
}

impl View for ByteMatrix {
    type V = Seq<Seq<u8>>;

    /// The rows of the matrix, top to bottom.
    closed spec fn view(&self) -> Seq<Seq<u8>> {
        Seq::new(self.bytes@.len(), |y: int| self.bytes@[y]@)
    }
}

impl ByteMatrix {
    #[verifier::type_invariant]
    spec fn well_formed(&self) -> bool {
        &&& self.bytes@.len() == self.height
        &&& forall|y: int| 0 <= y < self.height ==> (#[trigger] self.bytes@[y])@.len() == self.width
    }

    pub closed spec fn width_spec(&self) -> u32 {
        self.width
    }

    pub closed spec fn height_spec(&self) -> u32 {
        self.height
    }

    /// A `width` by `height` matrix with every cell 0.
    pub fn new(width: u32, height: u32) -> (m: ByteMatrix)
        ensures
            m.width_spec() == width,
            m.height_spec() == height,
            m@ == Seq::new(height as nat, |y: int| Seq::new(width as nat, |x: int| 0u8)),
    {
        let mut bytes: Vec<Vec<u8>> = Vec::new();
        let mut y: u32 = 0;
        while y < height
            invariant
                y <= height,
                bytes@.len() == y,
                forall|k: int| 0 <= k < y ==> (#[trigger] bytes@[k])@ == Seq::new(width as nat, |x: int| 0u8),
            decreases height - y,
        {
            let mut row: Vec<u8> = Vec::new();
            let mut x: u32 = 0;
            while x < width
                invariant
                    x <= width,
                    row@ == Seq::new(x as nat, |i: int| 0u8),
                decreases width - x,
            {
                row.push(0);
                x = x + 1;
            }
            bytes.push(row);
            y = y + 1;
        }
        let m = ByteMatrix { bytes, width, height };
        assert(m@ =~= Seq::new(height as nat, |y: int| Seq::new(width as nat, |x: int| 0u8)));
        m
    }

    pub fn getWidth(&self) -> (w: u32)
        ensures
            w == self.width_spec(),
    {
        self.width
    }

    pub fn getHeight(&self) -> (h: u32)
        ensures
            h == self.height_spec(),
    {
        self.height
    }

    /// The cell in column `x` of row `y`.
    pub fn get(&self, x: u32, y: u32) -> (b: u8)
        requires
            x < self.width_spec(),
            y < self.height_spec(),
        ensures
            b == self@[y as int][x as int],
    {
        proof {
            use_type_invariant(self);
        }
        self.bytes[y as usize][x as usize]
    }

    /// Sets the cell in column `x` of row `y`.
    pub fn set(&mut self, x: u32, y: u32, value: u8)
        requires
            x < old(self).width_spec(),
            y < old(self).height_spec(),
        ensures
            final(self).width_spec() == old(self).width_spec(),
            final(self).height_spec() == old(self).height_spec(),
            final(self)@ == old(self)@.update(y as int, old(self)@[y as int].update(x as int, value)),
    {
        proof {
            use_type_invariant(&*self);
        }
        let mut row = self.bytes[y as usize].clone();
        row.set(x as usize, value);
        let mut taken = ByteMatrix { bytes: Vec::new(), width: 0, height: 0 };
        std::mem::swap(&mut taken, self);
        let ByteMatrix { mut bytes, width, height } = taken;
        bytes.set(y as usize, row);
        *self = ByteMatrix { bytes, width, height };
        assert(self@ =~= old(self)@.update(y as int, old(self)@[y as int].update(x as int, value)));
    }

    /// The matrix as text, each row on a line of its own.
    pub fn to_string(&self) -> (s: String)
        ensures
            s@ == matrix_text(self@),
    {
        proof {
            use_type_invariant(self);
        }
        let mut s = String::new();
        let mut y: usize = 0;
        while y < self.bytes.len()
            invariant
                y <= self.bytes@.len(),
                s@ == matrix_text(self@.take(y as int)),
            decreases self.bytes@.len() - y,
        {
            let row = &self.bytes[y];
            let ghost before = s@;
            let mut x: usize = 0;
            while x < row.len()
                invariant
                    x <= row@.len(),
                    s@ == before + row_text(row@.take(x as int)),
                decreases row@.len() - x,
            {
                let b = row[x];
                if b == 0 {
                    s.append(" 0");
                } else if b == 1 {
                    s.append(" 1");
                } else {
                    s.append("  ");
                }
                assert(row@.take(x + 1).drop_last() =~= row@.take(x as int));
                x = x + 1;
            }
            push_char(&mut s, '\n');
            assert(row@.take(row@.len() as int) =~= row@);
            assert(self@.take(y + 1).drop_last() =~= self@.take(y as int));
            y = y + 1;
        }
        assert(self@.take(self.bytes@.len() as int) =~= self@);
        s
    }
}

/// The name of an optional mode, if there is one.
pub open spec fn mode_option_name(m: Option<Mode>) -> Option<Seq<char>> {
    match m {
        Some(v) => Some(mode_name(v)),
        None => None,
    }
}

/// The name of an optional error correction level, if there is one.
pub open spec fn level_option_name(l: Option<ErrorCorrectionLevel>) -> Option<Seq<char>> {
    match l {
        Some(v) => Some(level_name(v)),
        None => None,
    }
}

/// How a QR Code is shown: its mode, error correction level, version, mask pattern and
/// matrix, one per line between "<<" and ">>".
pub open spec fn qr_code_text(
    mode: Option<Mode>,
    ec_level: Option<ErrorCorrectionLevel>,
    version: u32,
    mask_pattern: i32,
    matrix: Option<Seq<Seq<u8>>>,
) -> Seq<char> {
    "<<\n mode: "@ + optional_text(mode_option_name(mode)) + "\n ecLevel: "@ + optional_text(
        level_option_name(ec_level),
    ) + "\n version: "@ + decimal(version as nat) + "\n maskPattern: "@ + signed_decimal(
        mask_pattern as int,
    ) + match matrix {
        None => "\n matrix: null\n"@,
        Some(m) => "\n matrix:\n"@ + matrix_text(m),
    } + ">>\n"@
}

/// A QR Code whose error correction level is set shows that level by its own letter: right
/// after the mode line stands "\n ecLevel: Some(X)", with X the letter that names the level.
pub proof fn lemma_text_shows_level(
    mode: Option<Mode>,
    l: ErrorCorrectionLevel,
    version: u32,
    mask_pattern: i32,
    matrix: Option<Seq<Seq<u8>>>,
)
    ensures
        ({
            let t = qr_code_text(mode, Some(l), version, mask_pattern, matrix);
            let k: int = 10 + optional_text(mode_option_name(mode)).len() as int;
            &&& k + 18 <= t.len()
            &&& l == ErrorCorrectionLevel::L ==> t.subrange(k, k + 18) == "\n ecLevel: Some(L)"@
            &&& l == ErrorCorrectionLevel::M ==> t.subrange(k, k + 18) == "\n ecLevel: Some(M)"@
            &&& l == ErrorCorrectionLevel::Q ==> t.subrange(k, k + 18) == "\n ecLevel: Some(Q)"@
            &&& l == ErrorCorrectionLevel::H ==> t.subrange(k, k + 18) == "\n ecLevel: Some(H)"@
        }),
{
    reveal_strlit("<<\n mode: ");
    reveal_strlit("\n ecLevel: ");
    reveal_strlit("Some(");
    reveal_strlit(")");
    reveal_strlit("L");
    reveal_strlit("M");
    reveal_strlit("Q");
    reveal_strlit("H");
    reveal_strlit("\n ecLevel: Some(L)");
    reveal_strlit("\n ecLevel: Some(M)");
    reveal_strlit("\n ecLevel: Some(Q)");
    reveal_strlit("\n ecLevel: Some(H)");
    let t = qr_code_text(mode, Some(l), version, mask_pattern, matrix);
    let a = "<<\n mode: "@ + optional_text(mode_option_name(mode));
    let c = "\n ecLevel: "@ + optional_text(level_option_name(Some(l)));
    let e = "\n version: "@ + decimal(version as nat) + "\n maskPattern: "@ + signed_decimal(
        mask_pattern as int,
    ) + match matrix {
        None => "\n matrix: null\n"@,
        Some(m) => "\n matrix:\n"@ + matrix_text(m),
    } + ">>\n"@;
    assert(t =~= a + c + e);
    let k: int = 10 + optional_text(mode_option_name(mode)).len() as int;
    assert(a.len() == k);
    assert(c.len() == 18);
    assert(t.subrange(k, k + 18) =~= c);
    match l {
        ErrorCorrectionLevel::L => assert(c =~= "\n ecLevel: Some(L)"@),
        ErrorCorrectionLevel::M => assert(c =~= "\n ecLevel: Some(M)"@),
        ErrorCorrectionLevel::Q => assert(c =~= "\n ecLevel: Some(Q)"@),
        ErrorCorrectionLevel::H => assert(c =~= "\n ecLevel: Some(H)"@),
    }
}

/// A QR Code as the encoder builds it up: its mode, error correction level, version, mask
/// pattern and matrix, each set once it is chosen.
pub struct QRCode {
    mode: Option<Mode>,
    ecLevel: Option<ErrorCorrectionLevel>,
    version: Option<Version>,
    maskPattern: i32,
    matrix: Option<ByteMatrix>,
}

impl QRCode {
    pub closed spec fn mode_value(&self) -> Option<Mode> {
        self.mode
    }

    pub closed spec fn ec_level_value(&self) -> Option<ErrorCorrectionLevel> {
        self.ecLevel
    }

    pub closed spec fn version_value(&self) -> Option<Version> {
        self.version
    }

    pub closed spec fn mask_pattern_value(&self) -> i32 {
        self.maskPattern
    }

    pub closed spec fn matrix_value(&self) -> Option<ByteMatrix> {
        self.matrix
    }

    /// A QR Code with nothing chosen yet: no mode, level, version or matrix, and mask pattern -1.
    pub fn new() -> (q: Self)
        ensures
            q.mode_value() is None,
            q.ec_level_value() is None,
            q.version_value() is None,
            q.mask_pattern_value() == -1,
            q.matrix_value() is None,
    {
        Self { mode: None, ecLevel: None, version: None, maskPattern: -1, matrix: None }
    }

    /// The mode.
    pub fn getMode(&self) -> (r: &Option<Mode>)
        ensures
            *r == self.mode_value(),
    {
        &self.mode
    }

    pub fn getECLevel(&self) -> (r: &Option<ErrorCorrectionLevel>)
        ensures
            *r == self.ec_level_value(),
    {
        &self.ecLevel
    }

    pub fn getVersion(&self) -> (r: &Option<Version>)
        ensures
            *r == self.version_value(),
    {
        &self.version
    }

    pub fn getMaskPattern(&self) -> (r: i32)
        ensures
            r == self.mask_pattern_value(),
    {
        self.maskPattern
    }

    pub fn getMatrix(&self) -> (r: &Option<ByteMatrix>)
        ensures
            *r == self.matrix_value(),
    {
        &self.matrix
    }

    pub fn setMode(&mut self, value: Mode)
        ensures
            final(self).mode_value() == Some(value),
            final(self).ec_level_value() == old(self).ec_level_value(),
            final(self).version_value() == old(self).version_value(),
            final(self).mask_pattern_value() == old(self).mask_pattern_value(),
            final(self).matrix_value() == old(self).matrix_value(),
    {
        self.mode = Some(value);
    }

    pub fn setECLevel(&mut self, value: ErrorCorrectionLevel)
        ensures
            final(self).mode_value() == old(self).mode_value(),
            final(self).ec_level_value() == Some(value),
            final(self).version_value() == old(self).version_value(),
            final(self).mask_pattern_value() == old(self).mask_pattern_value(),
            final(self).matrix_value() == old(self).matrix_value(),
    {
        self.ecLevel = Some(value);
    }

    pub fn setVersion(&mut self, version: Version)
        ensures
            final(self).mode_value() == old(self).mode_value(),
            final(self).ec_level_value() == old(self).ec_level_value(),
            final(self).version_value() == Some(version),
            final(self).mask_pattern_value() == old(self).mask_pattern_value(),
            final(self).matrix_value() == old(self).matrix_value(),
    {
        self.version = Some(version);
    }

    pub fn setMaskPattern(&mut self, value: i32)
        ensures
            final(self).mode_value() == old(self).mode_value(),
            final(self).ec_level_value() == old(self).ec_level_value(),
            final(self).version_value() == old(self).version_value(),
            final(self).mask_pattern_value() == value,
            final(self).matrix_value() == old(self).matrix_value(),
    {
        self.maskPattern = value;
    }

    pub fn setMatrix(&mut self, value: ByteMatrix)
        ensures
            final(self).mode_value() == old(self).mode_value(),
            final(self).ec_level_value() == old(self).ec_level_value(),
            final(self).version_value() == old(self).version_value(),
            final(self).mask_pattern_value() == old(self).mask_pattern_value(),
            final(self).matrix_value() == Some(value),
    {
        self.matrix = Some(value);
    }

    /// Whether `maskPattern` names one of the eight mask patterns.
    pub fn isValidMaskPattern(maskPattern: i32) -> (b: bool)
        ensures
            b == (0 <= maskPattern < NUM_MASK_PATTERNS),
    {
        maskPattern >= 0 && maskPattern < NUM_MASK_PATTERNS
    }

    /// The QR Code as text. Its version must have been set.
    pub fn to_string(&self) -> (s: String)
        requires
            self.version_value() is Some,
        ensures
            s@ == qr_code_text(
                self.mode_value(),
                self.ec_level_value(),
                self.version_value()->0.number(),
                self.mask_pattern_value(),
                match self.matrix_value() {
                    Some(m) => Some(m@),
                    None => None,
                },
            ),
    {
        let mut result = String::new();
        result.append("<<\n mode: ");
        let ghost p0 = result@;
        push_optional_name(
            &mut result,
            match &self.mode {
                Some(m) => Some(m.name()),
                None => None,
            },
        );
        let ghost p1 = result@;
        result.append("\n ecLevel: ");
        push_optional_name(
            &mut result,
            match &self.ecLevel {
                Some(l) => Some(l.name()),
                None => None,
            },
        );
        let ghost p2 = result@;
        result.append("\n version: ");
        let version = match &self.version {
            Some(v) => v.getVersionNumber(),
            None => 0,
        };
        push_decimal(&mut result, version as u64);
        let ghost p3 = result@;
        result.append("\n maskPattern: ");
        if self.maskPattern < 0 {
            push_char(&mut result, '-');
            push_decimal(&mut result, (0 - (self.maskPattern as i64)) as u64);
        } else {
            push_decimal(&mut result, self.maskPattern as u64);
        }
        let ghost p4 = result@;
        assert(p4 =~= "<<\n mode: "@ + optional_text(mode_option_name(self.mode)) + "\n ecLevel: "@
            + optional_text(level_option_name(self.ecLevel)) + "\n version: "@ + decimal(
            self.version->0.number() as nat,
        ) + "\n maskPattern: "@ + signed_decimal(self.maskPattern as int));
        match &self.matrix {
            None => {
                result.append("\n matrix: null\n");
            },
            Some(m) => {
                result.append("\n matrix:\n");
                let shown = m.to_string();
                result.append(shown.as_str());
            },
        }
        result.append(">>\n");
        assert(result@ =~= qr_code_text(
            self.mode_value(),
            self.ec_level_value(),
            self.version_value()->0.number(),
            self.mask_pattern_value(),
            match self.matrix_value() {
                Some(m) => Some(m@),
                None => None,
            },
        ));
        result
    }
}

} // verus!
