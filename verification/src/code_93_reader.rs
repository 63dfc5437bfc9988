use vstd::prelude::*;

use crate::bit_array::{lemma_next_set, lemma_next_set_at, next_set, BitArray};
use crate::exceptions::Exceptions;
use crate::text::string_of;
use crate::one_d_reader::{
    boundary, lemma_boundary_compose, lemma_boundary_monotone, lemma_boundary_step,
    lemma_boundary_colour, lemma_run_end, lemma_run_end_at, lemma_run_reaches, lemma_stretched, lemma_stretched_boundary,
    pattern_recordable, recordPattern, run_widths, runs_fit_counters, stretched,
};
use vstd::arithmetic::div_mod::{
    lemma_add_mod_noop, lemma_add_mod_noop_right, lemma_fundamental_div_mod,
    lemma_fundamental_div_mod_converse, lemma_mod_bound, lemma_mod_pos_bound, lemma_mod_self_0,
    lemma_small_mod,
};
use vstd::arithmetic::power2::{lemma2_to64, lemma_pow2_adds, pow2};

verus! {

/// The character at position `i` of the Code 93 alphabet. The letters 'a' to 'd' stand for the
/// four shift characters ($), (%), (/) and (+).
pub open spec fn alphabet_char(i: int) -> char {
    if i == 0 {
        '0'
    } else if i == 1 {
        '1'
    } else if i == 2 {
        '2'
    } else if i == 3 {
        '3'
    } else if i == 4 {
        '4'
    } else if i == 5 {
        '5'
    } else if i == 6 {
        '6'
    } else if i == 7 {
        '7'
    } else if i == 8 {
        '8'
    } else if i == 9 {
        '9'
    } else if i == 10 {
        'A'
    } else if i == 11 {
        'B'
    } else if i == 12 {
        'C'
    } else if i == 13 {
        'D'
    } else if i == 14 {
        'E'
    } else if i == 15 {
        'F'
    } else if i == 16 {
        'G'
    } else if i == 17 {
        'H'
    } else if i == 18 {
        'I'
    } else if i == 19 {
        'J'
    } else if i == 20 {
        'K'
    } else if i == 21 {
        'L'
    } else if i == 22 {
        'M'
    } else if i == 23 {
        'N'
    } else if i == 24 {
        'O'
    } else if i == 25 {
        'P'
    } else if i == 26 {
        'Q'
    } else if i == 27 {
        'R'
    } else if i == 28 {
        'S'
    } else if i == 29 {
        'T'
    } else if i == 30 {
        'U'
    } else if i == 31 {
        'V'
    } else if i == 32 {
        'W'
    } else if i == 33 {
        'X'
    } else if i == 34 {
        'Y'
    } else if i == 35 {
        'Z'
    } else if i == 36 {
        '-'
    } else if i == 37 {
        '.'
    } else if i == 38 {
        ' '
    } else if i == 39 {
        '$'
    } else if i == 40 {
        '/'
    } else if i == 41 {
        '+'
    } else if i == 42 {
        '%'
    } else if i == 43 {
        'a'
    } else if i == 44 {
        'b'
    } else if i == 45 {
        'c'
    } else if i == 46 {
        'd'
    } else {
        '*'
    }
}

/// The Code 93 alphabet, in order of character value.
pub open spec fn alphabet() -> Seq<char> {
    Seq::new(48, |i: int| alphabet_char(i))
}

/// The bar pattern of the character at position `i`: nine modules, most significant first, a
/// one for each bar module and a zero for each space module.
pub open spec fn character_encoding(i: int) -> int {
    if i == 0 {
        0x114
    } else if i == 1 {
        0x148
    } else if i == 2 {
        0x144
    } else if i == 3 {
        0x142
    } else if i == 4 {
        0x128
    } else if i == 5 {
        0x124
    } else if i == 6 {
        0x122
    } else if i == 7 {
        0x150
    } else if i == 8 {
        0x112
    } else if i == 9 {
        0x10A
    } else if i == 10 {
        0x1A8
    } else if i == 11 {
        0x1A4
    } else if i == 12 {
        0x1A2
    } else if i == 13 {
        0x194
    } else if i == 14 {
        0x192
    } else if i == 15 {
        0x18A
    } else if i == 16 {
        0x168
    } else if i == 17 {
        0x164
    } else if i == 18 {
        0x162
    } else if i == 19 {
        0x134
    } else if i == 20 {
        0x11A
    } else if i == 21 {
        0x158
    } else if i == 22 {
        0x14C
    } else if i == 23 {
        0x146
    } else if i == 24 {
        0x12C
    } else if i == 25 {
        0x116
    } else if i == 26 {
        0x1B4
    } else if i == 27 {
        0x1B2
    } else if i == 28 {
        0x1AC
    } else if i == 29 {
        0x1A6
    } else if i == 30 {
        0x196
    } else if i == 31 {
        0x19A
    } else if i == 32 {
        0x16C
    } else if i == 33 {
        0x166
    } else if i == 34 {
        0x136
    } else if i == 35 {
        0x13A
    } else if i == 36 {
        0x12E
    } else if i == 37 {
        0x1D4
    } else if i == 38 {
        0x1D2
    } else if i == 39 {
        0x1CA
    } else if i == 40 {
        0x16E
    } else if i == 41 {
        0x176
    } else if i == 42 {
        0x1AE
    } else if i == 43 {
        0x126
    } else if i == 44 {
        0x1DA
    } else if i == 45 {
        0x1D6
    } else if i == 46 {
        0x132
    } else {
        0x15E
    }
}

/// The bar pattern of the start and stop character '*'.
pub open spec fn asterisk_encoding() -> int {
    character_encoding(47)
}

fn alphabet_table() -> (t: Vec<char>)
    ensures
        t@ == alphabet(),
{
    let t: Vec<char> = vec![
        '0', '1', '2', '3', '4', '5', '6', '7', '8', '9', 'A', 'B',
        'C', 'D', 'E', 'F', 'G', 'H', 'I', 'J', 'K', 'L', 'M', 'N',
        'O', 'P', 'Q', 'R', 'S', 'T', 'U', 'V', 'W', 'X', 'Y', 'Z',
        '-', '.', ' ', '$', '/', '+', '%', 'a', 'b', 'c', 'd', '*',
    ];
    assert(t@ =~= alphabet());
    t
}

fn character_encoding_table() -> (t: Vec<u32>)
    ensures
        t@.len() == 48,
        forall|i: int| 0 <= i < 48 ==> t@[i] as int == character_encoding(i),
{
    let t: Vec<u32> = vec![
        0x114, 0x148, 0x144, 0x142, 0x128, 0x124, 0x122, 0x150, 0x112, 0x10A, 0x1A8, 0x1A4,
        0x1A2, 0x194, 0x192, 0x18A, 0x168, 0x164, 0x162, 0x134, 0x11A, 0x158, 0x14C, 0x146,
        0x12C, 0x116, 0x1B4, 0x1B2, 0x1AC, 0x1A6, 0x196, 0x19A, 0x16C, 0x166, 0x136, 0x13A,
        0x12E, 0x1D4, 0x1D2, 0x1CA, 0x16E, 0x176, 0x1AE, 0x126, 0x1DA, 0x1D6, 0x132, 0x15E,
    ];
    t
}

/// The six run widths held in a set of counters.
pub open spec fn widths_of(counters: Seq<u32>) -> Seq<int> {
    Seq::new(6, |j: int| counters[j] as int)
}

/// The total width of six runs.
pub open spec fn total_width(w: Seq<int>) -> int {
    w[0] + w[1] + w[2] + w[3] + w[4] + w[5]
}

/// Run `j` measured in modules: its share of the nine modules of a character, `9 * w[j] / total`,
/// rounded to the nearest integer, halves upward.
pub open spec fn module_count(w: Seq<int>, j: int) -> int {
    (18 * w[j] + total_width(w)) / (2 * total_width(w))
}

/// Every run measures between 1 and 4 modules.
pub open spec fn modules_valid(w: Seq<int>) -> bool {
    &&& total_width(w) > 0
    &&& forall|j: int| 0 <= j < 6 ==> 1 <= #[trigger] module_count(w, j) <= 4
}

/// The bits contributed by the first `n` runs: each bar (even run) adds as many one bits as it
/// measures modules, each space (odd run) as many zero bits.
pub open spec fn pattern_prefix(w: Seq<int>, n: int) -> int
    decreases n,
{
    if n <= 0 {
        0
    } else {
        let m = module_count(w, n - 1);
        let shifted = pattern_prefix(w, n - 1) * pow2(m as nat);
        if (n - 1) % 2 == 0 {
            shifted + pow2(m as nat) - 1
        } else {
            shifted
        }
    }
}

/// The bar pattern that six run widths encode, or -1 when some run does not measure 1 to 4
/// modules.
pub open spec fn pattern_of(w: Seq<int>) -> int {
    if modules_valid(w) {
        pattern_prefix(w, 6)
    } else {
        -1
    }
}

/// The first position at or after `i` whose character has the given bar pattern.
pub open spec fn find_encoding(pattern: int, i: int) -> Option<int>
    decreases 48 - i,
{
    if i >= 48 {
        None
    } else if character_encoding(i) == pattern {
        Some(i)
    } else {
        find_encoding(pattern, i + 1)
    }
}

/// The character whose bar pattern is `pattern`, if any.
pub open spec fn char_for_pattern(pattern: int) -> Option<char> {
    match find_encoding(pattern, 0) {
        Some(i) => Some(alphabet_char(i)),
        None => None,
    }
}

proof fn lemma_find_encoding_in_range(pattern: int, i: int)
    requires
        0 <= i,
    ensures
        find_encoding(pattern, i) matches Some(k) ==> i <= k < 48 && character_encoding(k) == pattern,
    decreases 48 - i,
{
    if i < 48 && character_encoding(i) != pattern {
        lemma_find_encoding_in_range(pattern, i + 1);
    }
}

/// Whether `c` is one of the four shift characters, written 'a' to 'd'.
pub open spec fn is_shift(c: char) -> bool {
    'a' <= c <= 'd'
}

/// The character that the shift character `shift` followed by `next` stands for in extended
/// Code 93, if the pair is valid.
pub open spec fn shifted_char(shift: char, next: char) -> Option<char> {
    if shift == 'd' {
        // +A to +Z stand for a to z
        if 'A' <= next <= 'Z' { Some(((next as u32) + 32) as char) } else { None }
    } else if shift == 'a' {
        // $A to $Z stand for the control codes SOH to SUB
        if 'A' <= next <= 'Z' { Some(((next as u32) - 64) as char) } else { None }
    } else if shift == 'b' {
        if 'A' <= next <= 'E' {
            // %A to %E stand for ESC to US
            Some(((next as u32) - 38) as char)
        } else if 'F' <= next <= 'J' {
            // %F to %J stand for ; < = > ?
            Some(((next as u32) - 11) as char)
        } else if 'K' <= next <= 'O' {
            // %K to %O stand for [ \ ] ^ _
            Some(((next as u32) + 16) as char)
        } else if 'P' <= next <= 'T' {
            // %P to %T stand for { | } ~ DEL
            Some(((next as u32) + 43) as char)
        } else if next == 'U' {
            Some('\0')
        } else if next == 'V' {
            Some('@')
        } else if next == 'W' {
            Some('`')
        } else if 'X' <= next <= 'Z' {
            Some(127u32 as char)
        } else {
            None
        }
    } else if shift == 'c' {
        // /A to /O stand for ! to / and /Z for :
        if 'A' <= next <= 'O' {
            Some(((next as u32) - 32) as char)
        } else if next == 'Z' {
            Some(':')
        } else {
            None
        }
    } else {
        None
    }
}

/// The text that a string of Code 93 characters stands for in extended Code 93: each shift
/// character and the character after it become one character, all others stand for
/// themselves. `None` when a shift character ends the string or starts an invalid pair.
pub open spec fn decode_extended(s: Seq<char>) -> Option<Seq<char>>
    decreases s.len(),
{
    if s.len() == 0 {
        Some(Seq::empty())
    } else if is_shift(s[0]) {
        if s.len() < 2 {
            None
        } else {
            match shifted_char(s[0], s[1]) {
                None => None,
                Some(c) => match decode_extended(s.skip(2)) {
                    None => None,
                    Some(rest) => Some(seq![c] + rest),
                },
            }
        }
    } else {
        match decode_extended(s.skip(1)) {
            None => None,
            Some(rest) => Some(seq![s[0]] + rest),
        }
    }
}

/// `prefix` followed by the text of `rest`, if there is one.
pub open spec fn prefixed(prefix: Seq<char>, rest: Option<Seq<char>>) -> Option<Seq<char>> {
    match rest {
        Some(t) => Some(prefix + t),
        None => None,
    }
}

/// The character that `shift` and `next` stand for together.
fn shifted_char_of(shift: char, next: char) -> (r: Option<char>)
    requires
        is_shift(shift),
    ensures
        r == shifted_char(shift, next),
{
    if shift == 'd' {
        if next >= 'A' && next <= 'Z' {
            Some(((next as u8) + 32) as char)
        } else {
            None
        }
    } else if shift == 'a' {
        if next >= 'A' && next <= 'Z' {
            Some(((next as u8) - 64) as char)
        } else {
            None
        }
    } else if shift == 'b' {
        if next >= 'A' && next <= 'E' {
            Some(((next as u8) - 38) as char)
        } else if next >= 'F' && next <= 'J' {
            Some(((next as u8) - 11) as char)
        } else if next >= 'K' && next <= 'O' {
            Some(((next as u8) + 16) as char)
        } else if next >= 'P' && next <= 'T' {
            Some(((next as u8) + 43) as char)
        } else if next == 'U' {
            Some('\0')
        } else if next == 'V' {
            Some('@')
        } else if next == 'W' {
            Some('`')
        } else if next >= 'X' && next <= 'Z' {
            Some(127u8 as char)
        } else {
            None
        }
    } else {
        if next >= 'A' && next <= 'O' {
            Some(((next as u8) - 32) as char)
        } else if next == 'Z' {
            Some(':')
        } else {
            None
        }
    }
}

/// The first position at or after `i` of character `c` in the alphabet.
pub open spec fn find_char(c: char, i: int) -> Option<int>
    decreases 48 - i,
{
    if i >= 48 {
        None
    } else if alphabet_char(i) == c {
        Some(i)
    } else {
        find_char(c, i + 1)
    }
}

/// The value of character `c`: its position in the alphabet, or -1 if it is not in it.
pub open spec fn char_value(c: char) -> int {
    match find_char(c, 0) {
        Some(i) => i,
        None => -1,
    }
}

/// Whether `c` belongs to the Code 93 alphabet.
pub open spec fn in_alphabet(c: char) -> bool {
    find_char(c, 0) is Some
}

/// The weight of the character `t` places before a check character, when weights run from 1 up
/// to `weight_max` and then start again at 1.
pub open spec fn checksum_weight(t: int, weight_max: int) -> int {
    if weight_max <= 0 {
        1
    } else {
        t % weight_max + 1
    }
}

/// The weighted sum of the `n` characters just before position `check`.
pub open spec fn weighted_sum(s: Seq<char>, check: int, weight_max: int, n: int) -> int
    decreases n,
{
    if n <= 0 {
        0
    } else {
        weighted_sum(s, check, weight_max, n - 1) + checksum_weight(n - 1, weight_max) * char_value(
            s[check - n],
        )
    }
}

/// The character at `check` is the check character of all the characters before it.
pub open spec fn check_char_ok(s: Seq<char>, check: int, weight_max: int) -> bool {
    s[check] == alphabet_char(weighted_sum(s, check, weight_max, check) % 47)
}

/// Both check characters at the end of `s` (weights up to 20, then up to 15) are correct.
pub open spec fn checksums_ok(s: Seq<char>) -> bool {
    check_char_ok(s, s.len() - 2, 20) && check_char_ok(s, s.len() - 1, 15)
}

proof fn lemma_find_char_in_range(c: char, i: int)
    requires
        0 <= i,
    ensures
        find_char(c, i) matches Some(k) ==> i <= k < 48 && alphabet_char(k) == c,
    decreases 48 - i,
{
    if i < 48 && alphabet_char(i) != c {
        lemma_find_char_in_range(c, i + 1);
    }
}

/// The position of `c` in the alphabet.
fn alphabet_index(c: char) -> (r: Option<usize>)
    ensures
        match r {
            Some(i) => find_char(c, 0) == Some(i as int),
            None => find_char(c, 0) is None,
        },
{
    let chars = alphabet_table();
    let mut i: usize = 0;
    while i < 48
        invariant
            i <= 48,
            chars@ == alphabet(),
            find_char(c, 0) == find_char(c, i as int),
        decreases 48 - i,
    {
        if chars[i] == c {
            return Some(i);
        }
        i = i + 1;
    }
    None
}

/// The six runs that begin `2 * k` runs after `offset` form the start character '*', and a
/// further run begins after them within the row.
pub open spec fn window_is_asterisk(row: Seq<bool>, offset: int, k: nat) -> bool {
    &&& boundary(row, offset, 2 * k + 6) < row.len()
    &&& pattern_of(run_widths(row, boundary(row, offset, 2 * k))) == asterisk_encoding()
}

/// Counting runs from the first dark pixel of the row, the start character is first found in
/// the runs `2 * k` to `2 * k + 5`.
pub open spec fn asterisk_window(row: Seq<bool>, k: nat) -> bool {
    let offset = next_set(row, 0);
    &&& offset < row.len()
    &&& window_is_asterisk(row, offset, k)
    &&& forall|m: nat| m < k ==> !window_is_asterisk(row, offset, m)
}

/// The first window of runs that reads as the start character, if there is one.
pub open spec fn asterisk_span(row: Seq<bool>) -> Option<(int, int)> {
    if exists|k: nat| asterisk_window(row, k) {
        let k = choose|k: nat| asterisk_window(row, k);
        let offset = next_set(row, 0);
        Some((boundary(row, offset, 2 * k), boundary(row, offset, 2 * k + 6)))
    } else {
        None
    }
}

/// The character that the six runs beginning at `p` form, if they form one.
pub open spec fn symbol_at(row: Seq<bool>, p: int) -> Option<char> {
    if pattern_recordable(row, p) && pattern_of(run_widths(row, p)) >= 0 {
        char_for_pattern(pattern_of(run_widths(row, p)))
    } else {
        None
    }
}

/// Where the character after the one at `p` begins: the first dark pixel after its six runs.
pub open spec fn next_symbol(row: Seq<bool>, p: int) -> int {
    next_set(row, boundary(row, p, 6))
}

/// The characters read one after another from `p` up to and including the first stop
/// character '*', with the position where that stop character begins.
pub open spec fn read_symbols(row: Seq<bool>, p: int) -> Option<(Seq<char>, int)>
    decreases row.len() - p,
{
    match symbol_at(row, p) {
        None => None,
        Some(c) => {
            if c == '*' {
                Some((seq![c], p))
            } else {
                proof {
                    lemma_next_symbol_advances(row, p);
                }
                match read_symbols(row, next_symbol(row, p)) {
                    None => None,
                    Some((cs, last)) => Some((seq![c] + cs, last)),
                }
            }
        }
    }
}

/// What a row of Code 93 reads as: the decoded text, the characters before the check
/// characters, where the start character begins and ends, and where the stop character begins.
/// Fails when no start character, no readable characters up to a stop character, no dark pixel
/// after the stop character, or fewer than two characters are found; when a check character is
/// wrong; or when the extended encoding is broken.
pub open spec fn read_row(row: Seq<bool>) -> Result<(Seq<char>, Seq<char>, int, int, int), Exceptions> {
    match asterisk_span(row) {
        None => Err(Exceptions::NotFoundException),
        Some((start_begin, start_end)) => match read_symbols(row, next_set(row, start_end)) {
            None => Err(Exceptions::NotFoundException),
            Some((chars, last_start)) => {
                let raw = chars.drop_last();
                if next_symbol(row, last_start) >= row.len() {
                    Err(Exceptions::NotFoundException)
                } else if raw.len() < 2 {
                    Err(Exceptions::NotFoundException)
                } else if !checksums_ok(raw) {
                    Err(Exceptions::ChecksumException)
                } else {
                    let payload = raw.take(raw.len() - 2);
                    match decode_extended(payload) {
                        None => Err(Exceptions::FormatException),
                        Some(text) => Ok((text, payload, start_begin, start_end, last_start)),
                    }
                }
            }
        },
    }
}

/// `prefix` followed by the characters of `rest`, if they were read.
pub open spec fn prefixed_read(prefix: Seq<char>, rest: Option<(Seq<char>, int)>) -> Option<(Seq<char>, int)> {
    match rest {
        Some((cs, last)) => Some((prefix + cs, last)),
        None => None,
    }
}

/// The next character begins after the current one.
pub proof fn lemma_next_symbol_advances(row: Seq<bool>, p: int)
    requires
        pattern_recordable(row, p),
    ensures
        p < next_symbol(row, p) <= row.len(),
{
    lemma_boundary_step(row, p, 0);
    lemma_boundary_monotone(row, p, 1, 6);
    lemma_next_set(row, boundary(row, p, 6));
}

/// Only one window of runs is the first to read as the start character.
pub proof fn lemma_asterisk_window_unique(row: Seq<bool>, k1: nat, k2: nat)
    requires
        asterisk_window(row, k1),
        asterisk_window(row, k2),
    ensures
        k1 == k2,
{
    if k1 < k2 {
        assert(!window_is_asterisk(row, next_set(row, 0), k1));
    } else if k2 < k1 {
        assert(!window_is_asterisk(row, next_set(row, 0), k2));
    }
}

/// The six run widths scaled by `k`.
pub open spec fn scaled_widths(w: Seq<int>, k: int) -> Seq<int> {
    Seq::new(6, |j: int| k * w[j])
}

proof fn lemma_div_cancel(a: int, b: int, k: int)
    requires
        0 <= a,
        0 < b,
        0 < k,
    ensures
        (k * a) / (k * b) == a / b,
{
    lemma_fundamental_div_mod(a, b);
    lemma_mod_pos_bound(a, b);
    let q = a / b;
    let r = a % b;
    assert(k * a == q * (k * b) + k * r && 0 <= k * r < k * b) by (nonlinear_arith)
        requires
            a == b * q + r,
            0 <= r < b,
            0 < k,
    ;
    lemma_fundamental_div_mod_converse(k * a, k * b, q, k * r);
}

proof fn lemma_pattern_prefix_same(w: Seq<int>, v: Seq<int>, n: int)
    requires
        0 <= n <= 6,
        forall|j: int| 0 <= j < n ==> module_count(w, j) == module_count(v, j),
    ensures
        pattern_prefix(w, n) == pattern_prefix(v, n),
    decreases n,
{
    if n > 0 {
        lemma_pattern_prefix_same(w, v, n - 1);
    }
}

/// Reading a character does not depend on the module width: widening every run by the same
/// factor gives the same bar pattern.
pub proof fn lemma_pattern_scale_invariant(w: Seq<int>, k: int)
    requires
        w.len() == 6,
        forall|j: int| 0 <= j < 6 ==> 0 <= #[trigger] w[j],
        k >= 1,
    ensures
        pattern_of(scaled_widths(w, k)) == pattern_of(w),
{
    let v = scaled_widths(w, k);
    assert(total_width(v) == k * total_width(w)) by (nonlinear_arith)
        requires
            v[0] == k * w[0],
            v[1] == k * w[1],
            v[2] == k * w[2],
            v[3] == k * w[3],
            v[4] == k * w[4],
            v[5] == k * w[5],
    ;
    assert(total_width(w) >= 0);
    if total_width(w) > 0 {
        assert(total_width(v) > 0) by (nonlinear_arith)
            requires
                total_width(v) == k * total_width(w),
                total_width(w) > 0,
                k >= 1,
        ;
        assert forall|j: int| 0 <= j < 6 implies #[trigger] module_count(v, j) == module_count(w, j) by {
            let a = 18 * w[j] + total_width(w);
            let b = 2 * total_width(w);
            assert(18 * v[j] + total_width(v) == k * a && 2 * total_width(v) == k * b) by (nonlinear_arith)
                requires
                    v[j] == k * w[j],
                    total_width(v) == k * total_width(w),
                    a == 18 * w[j] + total_width(w),
                    b == 2 * total_width(w),
            ;
            lemma_div_cancel(a, b, k);
        }
        lemma_pattern_prefix_same(v, w, 6);
        assert(modules_valid(v) == modules_valid(w)) by {
            if modules_valid(w) {
                assert forall|j: int| 0 <= j < 6 implies 1 <= #[trigger] module_count(v, j) <= 4 by {
                    assert(module_count(w, j) == module_count(v, j));
                }
            }
            if modules_valid(v) {
                assert forall|j: int| 0 <= j < 6 implies 1 <= #[trigger] module_count(w, j) <= 4 by {
                    assert(module_count(w, j) == module_count(v, j));
                }
            }
        }
    } else {
        assert(total_width(v) == 0) by (nonlinear_arith)
            requires
                total_width(v) == k * total_width(w),
                total_width(w) == 0,
        ;
    }
}

/// Every character of the alphabet is read back from its own bar pattern: no two characters
/// share a pattern.
pub proof fn lemma_encodings_decode(i: int)
    requires
        0 <= i < 48,
    ensures
        find_encoding(character_encoding(i), 0) == Some(i),
        char_for_pattern(character_encoding(i)) == Some(alphabet_char(i)),
{
    reveal_with_fuel(find_encoding, 49);
}

/// Every character of the alphabet has its position as its value: no character occurs twice.
pub proof fn lemma_alphabet_values(i: int)
    requires
        0 <= i < 48,
    ensures
        find_char(alphabet_char(i), 0) == Some(i),
        char_value(alphabet_char(i)) == i,
        in_alphabet(alphabet_char(i)),
{
    reveal_with_fuel(find_char, 49);
}

/// Text without shift characters stands for itself in extended Code 93.
pub proof fn lemma_decode_extended_plain(s: Seq<char>)
    requires
        forall|i: int| 0 <= i < s.len() ==> !is_shift(#[trigger] s[i]),
    ensures
        decode_extended(s) == Some(s),
    decreases s.len(),
{
    if s.len() > 0 {
        let rest = s.skip(1);
        assert forall|i: int| 0 <= i < rest.len() implies !is_shift(#[trigger] rest[i]) by {
            assert(rest[i] == s[i + 1]);
        }
        lemma_decode_extended_plain(rest);
        assert(seq![s[0]] + rest =~= s);
    }
}

proof fn lemma_weighted_sum_prefix(s: Seq<char>, t: Seq<char>, check: int, weight_max: int, n: int)
    requires
        0 <= n <= check <= s.len(),
        check <= t.len(),
        forall|i: int| 0 <= i < check ==> s[i] == t[i],
    ensures
        weighted_sum(s, check, weight_max, n) == weighted_sum(t, check, weight_max, n),
    decreases n,
{
    if n > 0 {
        lemma_weighted_sum_prefix(s, t, check, weight_max, n - 1);
    }
}

/// Whether a check character is right depends only on it and the characters before it: what
/// follows the check position is never read.
pub proof fn lemma_check_char_ignores_later(s: Seq<char>, t: Seq<char>, check: int, weight_max: int)
    requires
        0 <= check < s.len(),
        check < t.len(),
        forall|i: int| 0 <= i <= check ==> s[i] == t[i],
    ensures
        check_char_ok(s, check, weight_max) == check_char_ok(t, check, weight_max),
{
    lemma_weighted_sum_prefix(s, t, check, weight_max, check);
}

/// The check character of `s` for weights up to `weight_max`.
pub open spec fn check_char(s: Seq<char>, weight_max: int) -> char {
    alphabet_char(weighted_sum(s, s.len() as int, weight_max, s.len() as int) % 47)
}

/// A message followed by its two check characters (weights up to 20, then up to 15, the
/// second computed over the message and the first) passes the check.
pub proof fn lemma_check_characters_accepted(s: Seq<char>)
    ensures
        ({
            let s1 = s.push(check_char(s, 20));
            let s2 = s1.push(check_char(s1, 15));
            checksums_ok(s2)
        }),
{
    let s1 = s.push(check_char(s, 20));
    let s2 = s1.push(check_char(s1, 15));
    lemma_weighted_sum_prefix(s1, s2, s1.len() as int, 15, s1.len() as int);
    lemma_weighted_sum_prefix(s, s2, s.len() as int, 20, s.len() as int);
}

/// Each run is rounded to the nearest whole number of modules, halves upward: it measures `m`
/// modules exactly when `m - 1/2 <= 9 * w[j] / total < m + 1/2`.
pub proof fn lemma_module_count_nearest(w: Seq<int>, j: int, m: int)
    requires
        total_width(w) > 0,
        0 <= w[j],
    ensures
        ({
            let t = total_width(w);
            let c = module_count(w, j);
            &&& 2 * t * c - t <= 18 * w[j] < 2 * t * c + t
            &&& (2 * t * m - t <= 18 * w[j] < 2 * t * m + t) ==> m == c
        }),
{
    let t = total_width(w);
    let x = 18 * w[j] + t;
    lemma_fundamental_div_mod(x, 2 * t);
    lemma_mod_pos_bound(x, 2 * t);
    let c = x / (2 * t);
    assert(2 * t * c - t <= 18 * w[j] < 2 * t * c + t) by (nonlinear_arith)
        requires
            x == (2 * t) * c + x % (2 * t),
            0 <= x % (2 * t) < 2 * t,
            x == 18 * w[j] + t,
    ;
    if 2 * t * m - t <= 18 * w[j] < 2 * t * m + t {
        assert(m == c) by (nonlinear_arith)
            requires
                t > 0,
                2 * t * c - t <= 18 * w[j] < 2 * t * c + t,
                2 * t * m - t <= 18 * w[j] < 2 * t * m + t,
        ;
    }
}

/// The extended Code 93 pairs: (+) followed by a letter is that letter in lower case; ($) followed
/// by A to Z the control codes 1 to 26; (%) followed by A to E the codes 27 to 31, by F to J the
/// characters ; to ?, by K to O [ to _, by P to T { to DEL, by U NUL, by V @, by W ` and by X to
/// Z DEL; (/) followed by A to O the characters ! to / and by Z the colon. No other pair is valid.
pub proof fn lemma_shift_pairs(next: char)
    ensures
        'A' <= next <= 'Z' ==> (shifted_char('d', next) matches Some(c) && 'a' <= c <= 'z'
            && c as int - 'a' as int == next as int - 'A' as int),
        'A' <= next <= 'Z' ==> (shifted_char('a', next) matches Some(c) && c as int == next as int
            - 'A' as int + 1),
        'A' <= next <= 'E' ==> (shifted_char('b', next) matches Some(c) && c as int == 27 + (next as int
            - 'A' as int)),
        'F' <= next <= 'J' ==> (shifted_char('b', next) matches Some(c) && c as int == ';' as int + (
        next as int - 'F' as int)),
        'K' <= next <= 'O' ==> (shifted_char('b', next) matches Some(c) && c as int == '[' as int + (
        next as int - 'K' as int)),
        'P' <= next <= 'T' ==> (shifted_char('b', next) matches Some(c) && c as int == '{' as int + (
        next as int - 'P' as int)),
        shifted_char('b', 'U') matches Some(c) && c as int == 0,
        shifted_char('b', 'V') == Some('@'),
        shifted_char('b', 'W') == Some('`'),
        'X' <= next <= 'Z' ==> (shifted_char('b', next) matches Some(c) && c as int == 127),
        'A' <= next <= 'O' ==> (shifted_char('c', next) matches Some(c) && c as int == '!' as int + (
        next as int - 'A' as int)),
        shifted_char('c', 'Z') == Some(':'),
        !('A' <= next <= 'Z') ==> shifted_char('d', next) is None && shifted_char('a', next) is None
            && shifted_char('b', next) is None,
        !('A' <= next <= 'O') && next != 'Z' ==> shifted_char('c', next) is None,
        forall|c: char| !is_shift(c) ==> shifted_char(c, next) is None,
{
}

/// A shift character and the character after it decode to the single character of the pair.
pub proof fn lemma_decode_extended_pair(shift: char, next: char)
    requires
        is_shift(shift),
    ensures
        decode_extended(seq![shift, next]) == match shifted_char(shift, next) {
            Some(c) => Some(seq![c]),
            None => None,
        },
{
    let s = seq![shift, next];
    assert(s.skip(2) =~= Seq::<char>::empty());
    assert(s[0] == shift && s[1] == next && s.len() == 2);
    assert(decode_extended(s.skip(2)) == Some(Seq::<char>::empty()));
    if let Some(c) = shifted_char(shift, next) {
        assert(seq![c] + Seq::<char>::empty() =~= seq![c]);
    }
}

/// Decoding works piece by piece: a fully decodable prefix decodes on its own, and the rest
/// decodes after it.
pub proof fn lemma_decode_extended_concat(x: Seq<char>, y: Seq<char>)
    requires
        decode_extended(x) is Some,
    ensures
        decode_extended(x + y) == prefixed(decode_extended(x)->0, decode_extended(y)),
    decreases x.len(),
{
    if x.len() == 0 {
        assert(x + y =~= y);
        if let Some(t) = decode_extended(y) {
            assert(Seq::<char>::empty() + t =~= t);
        }
    } else {
        let xy = x + y;
        if is_shift(x[0]) {
            let rest = x.skip(2);
            lemma_decode_extended_concat(rest, y);
            assert(xy[0] == x[0] && xy[1] == x[1]);
            assert(xy.skip(2) =~= rest + y);
            let c = shifted_char(x[0], x[1])->0;
            if let Some(t) = decode_extended(y) {
                let r = decode_extended(rest)->0;
                assert(seq![c] + (r + t) =~= (seq![c] + r) + t);
            }
        } else {
            let rest = x.skip(1);
            lemma_decode_extended_concat(rest, y);
            assert(xy[0] == x[0]);
            assert(xy.skip(1) =~= rest + y);
            if let Some(t) = decode_extended(y) {
                let r = decode_extended(rest)->0;
                assert(seq![x[0]] + (r + t) =~= (seq![x[0]] + r) + t);
            }
        }
    }
}

proof fn lemma_read_symbols_stop(row: Seq<bool>, p: int)
    requires
        0 <= p,
    ensures
        read_symbols(row, p) matches Some((cs, last)) ==> {
            &&& p <= last
            &&& symbol_at(row, last) == Some('*')
            &&& cs.len() >= 1
            &&& cs.last() == '*'
        },
    decreases row.len() - p,
{
    if let Some(c) = symbol_at(row, p) {
        if c != '*' {
            lemma_next_symbol_advances(row, p);
            lemma_read_symbols_stop(row, next_symbol(row, p));
            if let Some((cs, last)) = read_symbols(row, next_symbol(row, p)) {
                assert((seq![c] + cs).last() == cs.last());
            }
        }
    }
}

proof fn lemma_stop_symbol_pattern(row: Seq<bool>, p: int)
    requires
        symbol_at(row, p) == Some('*'),
    ensures
        pattern_recordable(row, p),
        pattern_of(run_widths(row, p)) == 0x15E,
{
    let pat = pattern_of(run_widths(row, p));
    lemma_find_encoding_in_range(pat, 0);
    let i = find_encoding(pat, 0)->0;
    lemma_alphabet_values(i);
    lemma_alphabet_values(47);
}

/// What a successful read of a row consists of: a start character '*' (the bar pattern 0x15E)
/// whose six runs end where the span ends; after it, the payload characters, their two check
/// characters and the stop character '*'; and a dark module after the stop character. The text is
/// the extended decoding of the payload.
pub proof fn lemma_read_row_ok(row: Seq<bool>)
    ensures
        read_row(row) matches Ok((text, payload, start_begin, start_end, last_start)) ==> {
            let c1 = check_char(payload, 20);
            let c2 = check_char(payload.push(c1), 15);
            let after = next_set(row, boundary(row, last_start, 6));
            &&& 0 <= start_begin < start_end <= last_start < row.len()
            &&& start_end == boundary(row, start_begin, 6)
            &&& pattern_of(run_widths(row, start_begin)) == 0x15E
            &&& pattern_recordable(row, last_start)
            &&& pattern_of(run_widths(row, last_start)) == 0x15E
            &&& read_symbols(row, next_set(row, start_end)) == Some(
                (payload.push(c1).push(c2).push('*'), last_start),
            )
            &&& after < row.len()
            &&& row[after]
            &&& decode_extended(payload) == Some(text)
        },
{
    if let Ok((text, payload, sb, se, last)) = read_row(row) {
        let off = next_set(row, 0);
        lemma_next_set(row, 0);
        let m = choose|m: nat| asterisk_window(row, m);
        assert(asterisk_window(row, m));
        lemma_boundary_step(row, off, 2 * m);
        lemma_boundary_monotone(row, off, 2 * m, 2 * m + 6);
        lemma_boundary_compose(row, off, 2 * m, 6);
        lemma_boundary_step(row, sb, 0);
        lemma_boundary_monotone(row, sb, 1, 6);
        lemma_next_set(row, se);
        let q0 = next_set(row, se);
        lemma_read_symbols_stop(row, q0);
        let cs = match read_symbols(row, q0) {
            Some((chars, _)) => chars,
            None => Seq::empty(),
        };
        lemma_stop_symbol_pattern(row, last);
        lemma_boundary_step(row, last, 0);
        lemma_boundary_monotone(row, last, 1, 6);
        lemma_next_set(row, boundary(row, last, 6));
        let raw = cs.drop_last();
        let n = raw.len();
        assert(raw.take(n - 2) == payload);
        lemma_weighted_sum_prefix(raw, payload, n - 2, 20, n - 2);
        let c1 = check_char(payload, 20);
        assert(raw.take(n - 1) =~= payload.push(c1));
        lemma_weighted_sum_prefix(raw, payload.push(c1), n - 1, 15, n - 1);
        assert(cs =~= payload.push(c1).push(check_char(payload.push(c1), 15)).push('*'));
    }
}

proof fn lemma_weighted_sum_one_change(s: Seq<char>, t: Seq<char>, check: int, weight_max: int, p: int, n: int)
    requires
        0 <= n <= check <= s.len(),
        check <= t.len(),
        0 <= p < check,
        forall|i: int| 0 <= i < check && i != p ==> s[i] == t[i],
    ensures
        weighted_sum(s, check, weight_max, n) - weighted_sum(t, check, weight_max, n) == if n < check - p {
            0
        } else {
            checksum_weight(check - 1 - p, weight_max) * (char_value(s[p]) - char_value(t[p]))
        },
    decreases n,
{
    if n > 0 {
        lemma_weighted_sum_one_change(s, t, check, weight_max, p, n - 1);
        let w = checksum_weight(n - 1, weight_max);
        let i = check - n;
        if i == p {
            assert(w * char_value(s[i]) - w * char_value(t[i]) == w * (char_value(s[p]) - char_value(t[p])))
                by (nonlinear_arith)
                requires
                    i == p,
            ;
        }
    }
}

proof fn lemma_47_is_prime(w: u32, d: u32)
    by (bit_vector)
    requires
        1 <= w <= 46,
        1 <= d <= 46,
    ensures
        (w * d) % 47 != 0,
{
}

proof fn lemma_char_value_range(c: char)
    requires
        in_alphabet(c),
    ensures
        0 <= char_value(c) < 48,
        alphabet_char(char_value(c)) == c,
        c != '*' ==> char_value(c) < 47,
{
    lemma_find_char_in_range(c, 0);
}

/// Changing one character of a message (other than to or from '*') always changes its check
/// character, for weights cycling up to any bound below 47: 47 is prime and every weight and
/// every difference of two character values lies between 1 and 46.
pub proof fn lemma_check_char_detects_substitution(s: Seq<char>, t: Seq<char>, p: int, weight_max: int)
    requires
        s.len() == t.len(),
        0 <= p < s.len(),
        forall|i: int| 0 <= i < s.len() && i != p ==> s[i] == t[i],
        s[p] != t[p],
        in_alphabet(s[p]),
        in_alphabet(t[p]),
        s[p] != '*',
        t[p] != '*',
        weight_max <= 46,
    ensures
        check_char(s, weight_max) != check_char(t, weight_max),
{
    let n = s.len() as int;
    lemma_weighted_sum_one_change(s, t, n, weight_max, p, n);
    lemma_char_value_range(s[p]);
    lemma_char_value_range(t[p]);
    let vs = char_value(s[p]);
    let vt = char_value(t[p]);
    let w = checksum_weight(n - 1 - p, weight_max);
    if weight_max > 0 {
        lemma_mod_pos_bound(n - 1 - p, weight_max);
    }
    assert(1 <= w <= 46);
    assert(vs != vt);
    let ss = weighted_sum(s, n, weight_max, n);
    let ts = weighted_sum(t, n, weight_max, n);
    assert(ss - ts == w * (vs - vt));
    if check_char(s, weight_max) == check_char(t, weight_max) {
        lemma_mod_bound(ss, 47);
        lemma_mod_bound(ts, 47);
        lemma_alphabet_values(ss % 47);
        lemma_alphabet_values(ts % 47);
        assert(ss % 47 == ts % 47);
        lemma_fundamental_div_mod(ss, 47);
        lemma_fundamental_div_mod(ts, 47);
        let q = ss / 47 - ts / 47;
        assert(ss - ts == 47 * q);
        if vs > vt {
            lemma_47_is_prime(w as u32, (vs - vt) as u32);
            lemma_fundamental_div_mod_converse(w * (vs - vt), 47, q, 0);
        } else {
            lemma_47_is_prime(w as u32, (vt - vs) as u32);
            assert(w * (vt - vs) == 47 * (-q)) by (nonlinear_arith)
                requires
                    w * (vs - vt) == 47 * q,
            ;
            lemma_fundamental_div_mod_converse(w * (vt - vs), 47, -q, 0);
        }
    }
}

/// The values of the Code 93 characters: digits 0 to 9, letters 10 to 35, then - . space $ / +
/// % as 36 to 42, the shift characters ($) (%) (/) (+) as 43 to 46, and the start and stop
/// character '*' as 47. Every other character has no value.
pub proof fn lemma_char_values(c: char)
    ensures
        '0' <= c <= '9' ==> char_value(c) == c as int - '0' as int,
        'A' <= c <= 'Z' ==> char_value(c) == 10 + (c as int - 'A' as int),
        char_value('-') == 36,
        char_value('.') == 37,
        char_value(' ') == 38,
        char_value('$') == 39,
        char_value('/') == 40,
        char_value('+') == 41,
        char_value('%') == 42,
        'a' <= c <= 'd' ==> char_value(c) == 43 + (c as int - 'a' as int),
        char_value('*') == 47,
        !('0' <= c <= '9' || 'A' <= c <= 'Z' || 'a' <= c <= 'd' || c == '-' || c == '.' || c == ' '
            || c == '$' || c == '/' || c == '+' || c == '%' || c == '*') ==> char_value(c) == -1,
{
    reveal_with_fuel(find_char, 49);
}

/// The start and stop character is '*', whose bar pattern is 0x15E; the window in which the
/// start character is found reads as '*', and it begins with a bar: a dark pixel that follows a
/// light one or the start of the row.
pub proof fn lemma_start_character_is_asterisk(row: Seq<bool>, k: nat)
    ensures
        asterisk_encoding() == 0x15E,
        char_for_pattern(0x15E) == Some('*'),
        asterisk_window(row, k) ==> ({
            let b = boundary(row, next_set(row, 0), 2 * k);
            &&& char_for_pattern(pattern_of(run_widths(row, b))) == Some('*')
            &&& 0 <= b < row.len()
            &&& row[b]
            &&& (b == 0 || !row[b - 1])
        }),
{
    lemma_encodings_decode(47);
    if asterisk_window(row, k) {
        let off = next_set(row, 0);
        lemma_next_set(row, 0);
        lemma_boundary_step(row, off, 2 * k);
        lemma_boundary_monotone(row, off, 2 * k, 2 * k + 6);
        lemma_boundary_colour(row, off, 2 * k);
        let b = boundary(row, off, 2 * k);
        assert((2 * k) % 2 == 0);
        if b > 0 {
            if k == 0 {
                assert(!row[b - 1]);
            } else {
                lemma_boundary_step(row, off, (2 * k - 1) as nat);
                lemma_boundary_monotone(row, off, (2 * k - 1) as nat, 2 * k);
                let a = boundary(row, off, (2 * k - 1) as nat);
                lemma_boundary_colour(row, off, (2 * k - 1) as nat);
                assert((2 * k - 1) as nat % 2 == 1);
                lemma_run_end(row, a);
                assert(row[b - 1] == row[a]);
            }
        }
    }
}

/// When a read is owed: if the start character is found, the characters after it are a payload,
/// its two check characters and the stop character, a dark module follows the stop character,
/// and the payload decodes, then the row reads as that payload's text (even an empty one).
pub proof fn lemma_read_row_complete(
    row: Seq<bool>,
    payload: Seq<char>,
    text: Seq<char>,
    start_begin: int,
    start_end: int,
    last_start: int,
)
    requires
        asterisk_span(row) == Some((start_begin, start_end)),
        read_symbols(row, next_set(row, start_end)) == Some(
            (
                payload.push(check_char(payload, 20)).push(
                    check_char(payload.push(check_char(payload, 20)), 15),
                ).push('*'),
                last_start,
            ),
        ),
        next_set(row, boundary(row, last_start, 6)) < row.len(),
        decode_extended(payload) == Some(text),
    ensures
        read_row(row) == Ok::<(Seq<char>, Seq<char>, int, int, int), Exceptions>(
            (text, payload, start_begin, start_end, last_start),
        ),
{
    let c1 = check_char(payload, 20);
    let p1 = payload.push(c1);
    let raw = p1.push(check_char(p1, 15));
    assert(raw.push('*').drop_last() =~= raw);
    assert(raw.take(raw.len() - 2) =~= payload);
    lemma_weighted_sum_prefix(payload, raw, payload.len() as int, 20, payload.len() as int);
    lemma_weighted_sum_prefix(p1, raw, p1.len() as int, 15, p1.len() as int);
}

proof fn lemma_stretched_next_set(row: Seq<bool>, k: int)
    requires
        k >= 1,
    ensures
        next_set(stretched(row, k), 0) == k * next_set(row, 0),
        0 <= next_set(row, 0) <= row.len(),
{
    let st = stretched(row, k);
    let n = next_set(row, 0);
    lemma_next_set(row, 0);
    assert(0 <= k * n <= row.len() * k) by (nonlinear_arith)
        requires
            k >= 1,
            0 <= n <= row.len(),
    ;
    assert forall|q: int| 0 <= q < k * n implies !#[trigger] st[q] by {
        let c = q / k;
        lemma_fundamental_div_mod(q, k);
        lemma_mod_pos_bound(q, k);
        assert(k * c <= q < k * (c + 1) && 0 <= c < n) by (nonlinear_arith)
            requires
                k >= 1,
                0 <= q < k * n,
                q == k * c + q % k,
                0 <= q % k < k,
        ;
        lemma_stretched(row, k, q, c);
    }
    if n < row.len() {
        assert(k * n < k * (n + 1)) by (nonlinear_arith)
            requires
                k >= 1,
        ;
        lemma_stretched(row, k, k * n, n);
    } else {
        assert(k * n == row.len() * k) by (nonlinear_arith)
            requires
                n == row.len(),
        ;
    }
    lemma_next_set_at(st, 0, k * n);
}

proof fn lemma_stretched_window(row: Seq<bool>, k: int, m: nat)
    requires
        k >= 1,
    ensures
        window_is_asterisk(stretched(row, k), next_set(stretched(row, k), 0), m) == window_is_asterisk(
            row,
            next_set(row, 0),
            m,
        ),
{
    let st = stretched(row, k);
    lemma_stretched_next_set(row, k);
    let off = next_set(row, 0);
    lemma_stretched_boundary(row, k, off, 2 * m);
    lemma_stretched_boundary(row, k, off, 2 * m + 6);
    let b = boundary(row, off, 2 * m);
    lemma_boundary_step(row, off, 2 * m);
    let w = run_widths(row, b);
    assert forall|j: int| 0 <= j < 6 implies #[trigger] run_widths(st, k * b)[j] == scaled_widths(w, k)[j]
        && 0 <= w[j] by {
        lemma_stretched_boundary(row, k, b, j as nat);
        lemma_stretched_boundary(row, k, b, (j + 1) as nat);
        lemma_boundary_step(row, b, j as nat);
        assert(k * boundary(row, b, (j + 1) as nat) - k * boundary(row, b, j as nat) == k * w[j])
            by (nonlinear_arith)
            requires
                w[j] == boundary(row, b, (j + 1) as nat) - boundary(row, b, j as nat),
        ;
    }
    assert(run_widths(st, k * b) =~= scaled_widths(w, k));
    assert forall|j: int| 0 <= j < 6 implies 0 <= #[trigger] w[j] by {
        lemma_boundary_step(row, b, j as nat);
    }
    lemma_pattern_scale_invariant(w, k);
    let b6 = boundary(row, off, 2 * m + 6);
    assert(b6 < row.len() <==> k * b6 < row.len() * k) by (nonlinear_arith)
        requires
            k >= 1,
    ;
}

/// Reading a row at `k` times the resolution, every pixel repeated `k` times, finds the start
/// character in the same window of runs, with every run boundary `k` times as far along: the
/// span that `findAsteriskPattern` reports is scaled by `k`.
pub proof fn lemma_asterisk_span_scales(row: Seq<bool>, k: int)
    requires
        k >= 1,
    ensures
        next_set(stretched(row, k), 0) == k * next_set(row, 0),
        forall|j: nat| #[trigger] boundary(stretched(row, k), next_set(stretched(row, k), 0), j)
            == k * boundary(row, next_set(row, 0), j),
        forall|m: nat| #[trigger] asterisk_window(stretched(row, k), m) == asterisk_window(row, m),
        asterisk_span(stretched(row, k)) == match asterisk_span(row) {
            Some((s, e)) => Some((k * s, k * e)),
            None => None,
        },
{
    let st = stretched(row, k);
    lemma_stretched_next_set(row, k);
    let off = next_set(row, 0);
    assert forall|j: nat| #[trigger] boundary(st, next_set(st, 0), j) == k * boundary(row, off, j) by {
        lemma_stretched_boundary(row, k, off, j);
    }
    assert(off < row.len() <==> k * off < row.len() * k) by (nonlinear_arith)
        requires
            k >= 1,
    ;
    assert(0 <= row.len() * k) by (nonlinear_arith)
        requires
            k >= 1,
    ;
    assert(st.len() == row.len() * k);
    assert forall|m: nat| #[trigger] asterisk_window(st, m) == asterisk_window(row, m) by {
        lemma_stretched_window(row, k, m);
        if asterisk_window(row, m) {
            assert forall|i: nat| i < m implies !window_is_asterisk(st, next_set(st, 0), i) by {
                lemma_stretched_window(row, k, i);
            }
        }
        if asterisk_window(st, m) {
            assert forall|i: nat| i < m implies !window_is_asterisk(row, off, i) by {
                lemma_stretched_window(row, k, i);
            }
        }
    }
    if exists|m: nat| asterisk_window(row, m) {
        let m1 = choose|m: nat| asterisk_window(row, m);
        assert(asterisk_window(st, m1));
        let m2 = choose|m: nat| asterisk_window(st, m);
        assert(asterisk_window(row, m2));
        lemma_asterisk_window_unique(row, m1, m2);
        assert(boundary(st, next_set(st, 0), 2 * m2) == k * boundary(row, off, 2 * m2));
        assert(boundary(st, next_set(st, 0), 2 * m2 + 6) == k * boundary(row, off, 2 * m2 + 6));
    } else {
        assert forall|m: nat| !asterisk_window(st, m) by {
            assert(asterisk_window(st, m) == asterisk_window(row, m));
        }
    }
}

proof fn lemma_find_char_found(c: char, j: int, i: int)
    requires
        0 <= j <= i < 48,
        alphabet_char(i) == c,
    ensures
        find_char(c, j) is Some,
    decreases i - j,
{
    if alphabet_char(j) != c {
        lemma_find_char_found(c, j + 1, i);
    }
}

/// What `decodeRow` returns: the text of the row, where its start character begins and ends,
/// where its stop character begins and how wide that is, and the row's number.
pub struct RXingResult {
    pub text: String,
    pub startBegin: usize,
    pub startEnd: usize,
    pub lastStart: usize,
    pub lastPatternSize: usize,
    pub rowNumber: u32,
}

impl RXingResult {
    pub fn getText(&self) -> (t: &String)
        ensures
            t@ == self.text@,
    {
        &self.text
    }
}

/// The Code 93 row reader. Its fields are working storage reused from one row to the next.
pub struct Code93Reader {
    decodeRowRXingResult: Vec<char>,
    counters: [u32; 6],
}

impl Code93Reader {
    pub fn new() -> (r: Self)
        ensures
            r.decode_buffer() == Seq::<char>::empty(),
            r.counter_values() == seq![0u32, 0, 0, 0, 0, 0],
    {
        Self { decodeRowRXingResult: Vec::new(), counters: [0, 0, 0, 0, 0, 0] }
    }

    /// The bar pattern encoded by six run widths (bar, space, bar, space, bar, space), or -1
    /// when some run does not measure between 1 and 4 of the character's nine modules.
    pub fn toPattern(counters: &[u32; 6]) -> (p: i32)
        ensures
            p == pattern_of(widths_of(counters@)),
    {
        let ghost w = widths_of(counters@);
        let sum: u64 = counters[0] as u64 + counters[1] as u64 + counters[2] as u64
            + counters[3] as u64 + counters[4] as u64 + counters[5] as u64;
        assert(sum == total_width(w));
        if sum == 0 {
            return -1;
        }
        proof {
            lemma2_to64();
        }
        let mut pattern: u32 = 0;
        let mut i: usize = 0;
        while i < 6
            invariant
                w == widths_of(counters@),
                sum == total_width(w),
                sum > 0,
                i <= 6,
                forall|j: int| 0 <= j < i ==> 1 <= #[trigger] module_count(w, j) <= 4,
                pattern == pattern_prefix(w, i as int),
                pattern < pow2((4 * i) as nat),
                pow2(24) == 0x100_0000,
            decreases 6 - i,
        {
            let c: u64 = counters[i] as u64;
            let scaled: u64 = (18 * c + sum) / (2 * sum);
            assert(scaled == module_count(w, i as int));
            if scaled < 1 || scaled > 4 {
                return -1;
            }
            let unit: u32 = if scaled == 1 {
                2
            } else if scaled == 2 {
                4
            } else if scaled == 3 {
                8
            } else {
                16
            };
            proof {
                lemma2_to64();
                assert(unit == pow2(scaled as nat));
                lemma_pow2_adds((4 * i) as nat, 4);
                let bound = pow2((4 * i) as nat);
                assert(pattern * unit + unit <= bound * 16) by (nonlinear_arith)
                    requires
                        pattern < bound,
                        unit <= 16,
                ;
            }
            if i % 2 == 0 {
                pattern = pattern * unit + (unit - 1);
            } else {
                pattern = pattern * unit;
            }
            i = i + 1;
        }
        proof {
            assert(modules_valid(w));
        }
        pattern as i32
    }

    /// The character whose bar pattern is `pattern`.
    pub fn patternToChar(pattern: u32) -> (r: Result<char, Exceptions>)
        ensures
            r == (match char_for_pattern(pattern as int) {
                Some(c) => Ok(c),
                None => Err(Exceptions::NotFoundException),
            }),
    {
        let encodings = character_encoding_table();
        let chars = alphabet_table();
        let mut i: usize = 0;
        while i < 48
            invariant
                i <= 48,
                encodings@.len() == 48,
                forall|k: int| 0 <= k < 48 ==> encodings@[k] as int == character_encoding(k),
                chars@ == alphabet(),
                find_encoding(pattern as int, 0) == find_encoding(pattern as int, i as int),
            decreases 48 - i,
        {
            if encodings[i] == pattern {
                return Ok(chars[i]);
            }
            i = i + 1;
        }
        Err(Exceptions::NotFoundException)
    }

    /// The text that a string of Code 93 characters stands for in extended Code 93.
    pub fn decodeExtended(encoded: &Vec<char>) -> (r: Result<Vec<char>, Exceptions>)
        ensures
            match r {
                Ok(t) => decode_extended(encoded@) == Some(t@),
                Err(e) => decode_extended(encoded@) is None && e == Exceptions::FormatException,
            },
    {
        let length = encoded.len();
        let mut decoded: Vec<char> = Vec::new();
        let mut i: usize = 0;
        proof {
            assert(encoded@.skip(0) =~= encoded@);
            match decode_extended(encoded@) {
                Some(t) => {
                    assert(Seq::<char>::empty() + t =~= t);
                },
                None => {},
            }
        }
        while i < length
            invariant
                length == encoded@.len(),
                i <= length,
                decode_extended(encoded@) == prefixed(decoded@, decode_extended(encoded@.skip(i as int))),
            decreases length - i,
        {
            let c = encoded[i];
            let ghost rest = encoded@.skip(i as int);
            assert(rest[0] == c);
            if c >= 'a' && c <= 'd' {
                if i >= length - 1 {
                    return Err(Exceptions::FormatException);
                }
                let next = encoded[i + 1];
                assert(rest[1] == next);
                assert(rest.skip(2) =~= encoded@.skip(i + 2));
                match shifted_char_of(c, next) {
                    None => {
                        return Err(Exceptions::FormatException);
                    },
                    Some(decodedChar) => {
                        let ghost before = decoded@;
                        decoded.push(decodedChar);
                        proof {
                            match decode_extended(encoded@.skip(i + 2)) {
                                Some(t) => {
                                    assert(before + (seq![decodedChar] + t) =~= decoded@ + t);
                                },
                                None => {},
                            }
                        }
                        i = i + 1;
                    },
                }
            } else {
                assert(rest.skip(1) =~= encoded@.skip(i + 1));
                let ghost before = decoded@;
                decoded.push(c);
                proof {
                    match decode_extended(encoded@.skip(i + 1)) {
                        Some(t) => {
                            assert(before + (seq![c] + t) =~= decoded@ + t);
                        },
                        None => {},
                    }
                }
            }
            i = i + 1;
        }
        assert(encoded@.skip(length as int) =~= Seq::<char>::empty());
        assert(decoded@ + Seq::<char>::empty() =~= decoded@);
        Ok(decoded)
    }

    /// Checks both check characters at the end of `result`.
    fn checkChecksums(result: &Vec<char>) -> (r: Result<(), Exceptions>)
        requires
            result@.len() >= 2,
            forall|k: int| 0 <= k < result@.len() ==> in_alphabet(#[trigger] result@[k]),
        ensures
            match r {
                Ok(()) => checksums_ok(result@),
                Err(e) => !checksums_ok(result@) && e == Exceptions::ChecksumException,
            },
    {
        let length = result.len();
        Self::checkOneChecksum(result, length - 2, 20)?;
        Self::checkOneChecksum(result, length - 1, 15)?;
        Ok(())
    }

    /// Checks that the character at `checkPosition` is the check character of all the
    /// characters before it, weighted from 1 up to `weightMax` backwards from the check
    /// character.
    fn checkOneChecksum(result: &Vec<char>, checkPosition: usize, weightMax: u32) -> (r: Result<(), Exceptions>)
        requires
            checkPosition < result@.len(),
            forall|k: int| 0 <= k < checkPosition ==> in_alphabet(#[trigger] result@[k]),
        ensures
            match r {
                Ok(()) => check_char_ok(result@, checkPosition as int, weightMax as int),
                Err(e) => !check_char_ok(result@, checkPosition as int, weightMax as int)
                    && e == Exceptions::ChecksumException,
            },
    {
        let ghost s = result@;
        let ghost cp = checkPosition as int;
        let ghost wm = weightMax as int;
        let mut weight: u64 = 1;
        let mut total: u64 = 0;
        let mut n: usize = 0;
        while n < checkPosition
            invariant
                s == result@,
                cp == checkPosition,
                wm == weightMax,
                checkPosition < result@.len(),
                forall|k: int| 0 <= k < checkPosition ==> in_alphabet(#[trigger] result@[k]),
                n <= checkPosition,
                weighted_sum(s, cp, wm, n as int) >= 0,
                total == weighted_sum(s, cp, wm, n as int) % 47,
                weight == checksum_weight(n as int, wm),
                1 <= weight <= weightMax as u64 + 1,
            decreases checkPosition - n,
        {
            let i = checkPosition - 1 - n;
            let c = result[i];
            assert(in_alphabet(result@[i as int]));
            let pos: u64 = match alphabet_index(c) {
                Some(p) => p as u64,
                None => 0,
            };
            proof {
                lemma_find_char_in_range(c, 0);
                let old_sum = weighted_sum(s, cp, wm, n as int);
                assert(weighted_sum(s, cp, wm, n + 1) == old_sum + weight * pos);
                lemma_add_mod_noop_right((weight * pos) as int, old_sum, 47);
                assert(0 <= weight * pos <= 0x1_0000_0000 * 48) by (nonlinear_arith)
                    requires
                        0 <= weight <= 0x1_0000_0000,
                        0 <= pos < 48,
                ;
            }
            total = (total + weight * pos) % 47;
            weight = weight + 1;
            if weight > weightMax as u64 {
                weight = 1;
            }
            proof {
                if wm > 0 {
                    lemma_add_mod_noop(n as int, 1, wm);
                    if wm > 1 {
                        lemma_small_mod(1, wm as nat);
                        if (n as int) % wm + 1 < wm {
                            lemma_small_mod(((n as int) % wm + 1) as nat, wm as nat);
                        } else {
                            lemma_mod_self_0(wm);
                        }
                    } else {
                        lemma_mod_self_0(1);
                    }
                }
            }
            n = n + 1;
        }
        let expected = alphabet_table()[(total % 47) as usize];
        if result[checkPosition] != expected {
            Err(Exceptions::ChecksumException)
        } else {
            Ok(())
        }
    }

    /// Finds the start character '*' in a row: the first six runs, counted in pairs from the
    /// first dark pixel, that read as '*' and are followed by a further run. Returns where those
    /// runs begin and where they end.
    pub fn findAsteriskPattern(&mut self, row: &BitArray) -> (r: Result<[usize; 2], Exceptions>)
        requires
            runs_fit_counters(row@),
        ensures
            final(self).counter_values() == seq![0u32, 0, 0, 0, 0, 0],
            final(self).decode_buffer() == old(self).decode_buffer(),
            match r {
                Ok(span) => exists|k: nat| #[trigger] asterisk_window(row@, k)
                    && span@[0] == boundary(row@, next_set(row@, 0), 2 * k)
                    && span@[1] == boundary(row@, next_set(row@, 0), 2 * k + 6),
                Err(e) => e == Exceptions::NotFoundException && forall|k: nat| !asterisk_window(row@, k),
            },
    {
        let ghost s = row@;
        let width = row.getSize();
        let rowOffset = row.getNextSet(0);
        let ghost off = rowOffset as int;
        proof {
            lemma_next_set(s, 0);
        }
        self.counters = [0, 0, 0, 0, 0, 0];
        assert(self.counters@ =~= seq![0u32, 0, 0, 0, 0, 0]);
        let mut theCounters = self.counters;
        if rowOffset >= width {
            return Err(Exceptions::NotFoundException);
        }
        let mut patternStart: usize = rowOffset;
        let mut isWhite = false;
        let mut counterPosition: usize = 0;
        let ghost mut k: nat = 0;
        let mut i: usize = rowOffset;
        while i < width
            invariant
                s == row@,
                width == s.len(),
                runs_fit_counters(s),
                off == rowOffset,
                off == next_set(s, 0),
                0 <= off < width,
                off <= i <= width,
                counterPosition < 6,
                patternStart == boundary(s, off, 2 * k),
                forall|j: int| 0 <= j < counterPosition ==> theCounters@[j] as int
                    == boundary(s, off, (2 * k + j + 1) as nat) - boundary(s, off, (2 * k + j) as nat),
                ({
                    let b = boundary(s, off, (2 * k + counterPosition) as nat);
                    &&& off <= b <= i
                    &&& b < width
                    &&& theCounters@[counterPosition as int] as int == i - b
                    &&& s[b] == !isWhite
                    &&& forall|q: int| b <= q < i ==> s[q] == !isWhite
                }),
                forall|m: nat| m < k ==> !window_is_asterisk(s, off, m),
                self.counters@ == seq![0u32, 0, 0, 0, 0, 0],
                self.decodeRowRXingResult@ == old(self).decodeRowRXingResult@,
            decreases width - i,
        {
            let ghost b = boundary(s, off, (2 * k + counterPosition) as nat);
            if row.get(i) != isWhite {
                proof {
                    lemma_run_reaches(s, b, i as int);
                }
                theCounters[counterPosition] = theCounters[counterPosition] + 1;
            } else {
                proof {
                    lemma_run_end_at(s, b, i as int);
                    lemma_boundary_step(s, off, (2 * k + counterPosition) as nat);
                }
                if counterPosition == 5 {
                    let ghost ps = boundary(s, off, 2 * k);
                    proof {
                        assert forall|j: int| 0 <= j < 6 implies #[trigger] widths_of(theCounters@)[j]
                            == run_widths(s, ps)[j] by {
                            lemma_boundary_compose(s, off, 2 * k, j as nat);
                            lemma_boundary_compose(s, off, 2 * k, (j + 1) as nat);
                        }
                        assert(widths_of(theCounters@) =~= run_widths(s, ps));
                    }
                    if Self::toPattern(&theCounters) == 0x15E {
                        proof {
                            assert(asterisk_window(s, k));
                        }
                        return Ok([patternStart, i]);
                    }
                    proof {
                        lemma_boundary_step(s, off, 2 * k + 1);
                        lemma_boundary_step(s, off, 2 * k + 2);
                    }
                    patternStart = patternStart + theCounters[0] as usize + theCounters[1] as usize;
                    theCounters[0] = theCounters[2];
                    theCounters[1] = theCounters[3];
                    theCounters[2] = theCounters[4];
                    theCounters[3] = theCounters[5];
                    theCounters[4] = 0;
                    theCounters[5] = 0;
                    counterPosition = counterPosition - 1;
                    proof {
                        k = k + 1;
                    }
                } else {
                    counterPosition = counterPosition + 1;
                }
                theCounters[counterPosition] = 1;
                isWhite = !isWhite;
            }
            i = i + 1;
        }
        proof {
            let b = boundary(s, off, (2 * k + counterPosition) as nat);
            lemma_run_end_at(s, b, width as int);
            lemma_boundary_step(s, off, (2 * k + counterPosition) as nat);
            assert forall|m: nat| !window_is_asterisk(s, off, m) by {
                if m >= k {
                    lemma_boundary_monotone(s, off, (2 * k + counterPosition + 1) as nat, 2 * m + 6);
                }
            }
        }
        Err(Exceptions::NotFoundException)
    }

    /// Reads a row of Code 93: finds the start character, reads characters up to the stop
    /// character, verifies the two check characters, and decodes the extended encoding.
    pub fn decodeRow(&mut self, rowNumber: u32, row: &BitArray) -> (r: Result<RXingResult, Exceptions>)
        requires
            runs_fit_counters(row@),
        ensures
            final(self).counter_values() == seq![0u32, 0, 0, 0, 0, 0],
            match r {
                Ok(res) => read_row(row@) matches Ok((text, payload, start_begin, start_end, last_start))
                    && res.text@ == text
                    && res.startBegin == start_begin
                    && res.startEnd == start_end
                    && res.lastStart == last_start
                    && res.lastPatternSize == boundary(row@, last_start, 6) - last_start
                    && res.rowNumber == rowNumber
                    && final(self).decode_buffer() == payload,
                Err(e) => read_row(row@) == Err::<(Seq<char>, Seq<char>, int, int, int), Exceptions>(e),
            },
    {
        let ghost s = row@;
        let start = match self.findAsteriskPattern(row) {
            Ok(span) => span,
            Err(e) => {
                return Err(e);
            },
        };
        proof {
            let k = choose|k: nat| #[trigger] asterisk_window(s, k)
                && start@[0] == boundary(s, next_set(s, 0), 2 * k)
                && start@[1] == boundary(s, next_set(s, 0), 2 * k + 6);
            let k2 = choose|k: nat| asterisk_window(s, k);
            lemma_asterisk_window_unique(s, k, k2);
            assert(asterisk_span(s) == Some((start@[0] as int, start@[1] as int)));
        }
        let end = row.getSize();
        let mut nextStart = row.getNextSet(start[1]);
        proof {
            lemma_next_set(s, start@[1] as int);
        }
        let ghost firstStart = nextStart as int;
        let mut decoded: Vec<char> = Vec::new();
        let mut lastStart: usize = nextStart;
        let mut lastPatternSize: usize = 0;
        proof {
            match read_symbols(s, firstStart) {
                Some((cs, l)) => {
                    assert(Seq::<char>::empty() + cs =~= cs);
                },
                None => {},
            }
        }
        loop
            invariant_except_break
                s == row@,
                firstStart == next_set(s, start@[1] as int),
                asterisk_span(s) == Some((start@[0] as int, start@[1] as int)),
                end == s.len(),
                runs_fit_counters(s),
                nextStart <= end,
                read_symbols(s, firstStart) == prefixed_read(decoded@, read_symbols(s, nextStart as int)),
                forall|j: int| 0 <= j < decoded@.len() ==> in_alphabet(#[trigger] decoded@[j]),
                self.counter_values() == seq![0u32, 0, 0, 0, 0, 0],
            ensures
                s == row@,
                firstStart == next_set(s, start@[1] as int),
                asterisk_span(s) == Some((start@[0] as int, start@[1] as int)),
                end == s.len(),
                decoded@.len() >= 1,
                decoded@.last() == '*',
                read_symbols(s, firstStart) == Some((decoded@, lastStart as int)),
                lastPatternSize == boundary(s, lastStart as int, 6) - lastStart,
                nextStart == next_symbol(s, lastStart as int),
                nextStart <= end,
                lastStart <= end,
                forall|j: int| 0 <= j < decoded@.len() ==> in_alphabet(#[trigger] decoded@[j]),
                self.counter_values() == seq![0u32, 0, 0, 0, 0, 0],
            decreases end - nextStart,
        {
            let counters = match recordPattern(row, nextStart) {
                Ok(c) => c,
                Err(e) => {
                    assert(read_symbols(s, nextStart as int) is None);
                    assert(read_symbols(s, firstStart) is None);
                    return Err(e);
                },
            };
            assert(widths_of(counters@) =~= run_widths(s, nextStart as int));
            let pattern = Self::toPattern(&counters);
            if pattern < 0 {
                assert(read_symbols(s, nextStart as int) is None);
                assert(read_symbols(s, firstStart) is None);
                return Err(Exceptions::NotFoundException);
            }
            let decodedChar = match Self::patternToChar(pattern as u32) {
                Ok(c) => c,
                Err(e) => {
                    assert(read_symbols(s, nextStart as int) is None);
                    assert(read_symbols(s, firstStart) is None);
                    return Err(e);
                },
            };
            proof {
                lemma_find_encoding_in_range(pattern as int, 0);
                let idx = find_encoding(pattern as int, 0)->0;
                lemma_find_char_found(decodedChar, 0, idx);
            }
            let ghost before = decoded@;
            decoded.push(decodedChar);
            lastStart = nextStart;
            let ghost width = boundary(s, nextStart as int, 6) - nextStart;
            proof {
                let ns = nextStart as int;
                lemma_boundary_step(s, ns, 0);
                lemma_boundary_step(s, ns, 6);
                lemma_boundary_monotone(s, ns, 1, 6);
                let w = run_widths(s, ns);
                assert(counters@[0] + counters@[1] + counters@[2] + counters@[3] + counters@[4]
                    + counters@[5] == w[0] + w[1] + w[2] + w[3] + w[4] + w[5]);
                assert(w[0] + w[1] + w[2] + w[3] + w[4] + w[5] == boundary(s, ns, 6) - ns);
            }
            lastPatternSize = counters[0] as usize + counters[1] as usize + counters[2] as usize
                + counters[3] as usize + counters[4] as usize + counters[5] as usize;
            nextStart = nextStart + lastPatternSize;
            nextStart = row.getNextSet(nextStart);
            proof {
                lemma_next_symbol_advances(s, lastStart as int);
                match read_symbols(s, nextStart as int) {
                    Some((cs, l)) => {
                        assert(before + (seq![decodedChar] + cs) =~= decoded@ + cs);
                    },
                    None => {},
                }
                if decodedChar == '*' {
                    assert(before + seq![decodedChar] =~= decoded@);
                    assert(decoded@.last() == '*');
                }
            }
            if decodedChar == '*' {
                break;
            }
        }
        let ghost chars = decoded@;
        proof {
            lemma_boundary_step(s, lastStart as int, 6);
            lemma_next_set(s, boundary(s, lastStart as int, 6));
        }
        decoded.pop();
        assert(decoded@ =~= chars.drop_last());
        if nextStart == end || !row.get(nextStart) {
            return Err(Exceptions::NotFoundException);
        }
        if decoded.len() < 2 {
            return Err(Exceptions::NotFoundException);
        }
        match Self::checkChecksums(&decoded) {
            Ok(()) => {},
            Err(e) => {
                return Err(e);
            },
        }
        let payloadLength = decoded.len() - 2;
        decoded.truncate(payloadLength);
        let resultChars = match Self::decodeExtended(&decoded) {
            Ok(t) => t,
            Err(e) => {
                return Err(e);
            },
        };
        let text = string_of(&resultChars);
        self.decodeRowRXingResult = decoded;
        Ok(RXingResult {
            text,
            startBegin: start[0],
            startEnd: start[1],
            lastStart,
            lastPatternSize,
            rowNumber,
        })
    }

    /// The characters held in the working buffer.
    pub closed spec fn decode_buffer(&self) -> Seq<char> {
        self.decodeRowRXingResult@
    }

    /// The values held in the working counters.
    pub closed spec fn counter_values(&self) -> Seq<u32> {
        self.counters@
    }
}

} // verus!
