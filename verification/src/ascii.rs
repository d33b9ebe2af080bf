//! Byte-level helpers for ASCII text: decimal and hexadecimal numerals,
//! whitespace trimming, upper-casing, and searching. All HTTP framing data
//! (status lines, header names, chunk sizes) is ASCII, so the decoder and
//! the builders work on bytes and use these helpers.

use vstd::prelude::*;

verus! {

// --- classification ---

/// ASCII decimal digit.
pub open spec fn is_digit_byte(b: u8) -> bool {
    0x30 <= b <= 0x39
}

/// Numeric value of a decimal digit.
pub open spec fn digit_val(b: u8) -> nat
    recommends
        is_digit_byte(b),
{
    (b - 0x30) as nat
}

/// ASCII hexadecimal digit, either case.
pub open spec fn is_hex_digit_byte(b: u8) -> bool {
    is_digit_byte(b) || (0x41 <= b <= 0x46) || (0x61 <= b <= 0x66)
}

/// Numeric value of a hexadecimal digit.
pub open spec fn hex_digit_val(b: u8) -> nat
    recommends
        is_hex_digit_byte(b),
{
    if is_digit_byte(b) {
        (b - 0x30) as nat
    } else if 0x41 <= b <= 0x46 {
        (b - 0x41 + 10) as nat
    } else {
        (b - 0x61 + 10) as nat
    }
}

/// ASCII whitespace: space, horizontal tab, carriage return, line feed.
pub open spec fn is_ws_byte(b: u8) -> bool {
    b == 0x20 || b == 0x09 || b == 0x0d || b == 0x0a
}

pub open spec fn all_digits(s: Seq<u8>) -> bool {
    forall|i: int| 0 <= i < s.len() ==> is_digit_byte(#[trigger] s[i])
}

pub open spec fn all_hex_digits(s: Seq<u8>) -> bool {
    forall|i: int| 0 <= i < s.len() ==> is_hex_digit_byte(#[trigger] s[i])
}

// --- numeric value of digit strings, most significant digit first ---

pub open spec fn dec_value(s: Seq<u8>) -> nat
    decreases s.len(),
{
    if s.len() == 0 {
        0
    } else {
        dec_value(s.drop_last()) * 10 + digit_val(s.last())
    }
}

pub open spec fn hex_value(s: Seq<u8>) -> nat
    decreases s.len(),
{
    if s.len() == 0 {
        0
    } else {
        hex_value(s.drop_last()) * 16 + hex_digit_val(s.last())
    }
}

// --- canonical decimal rendering of a number ---

pub open spec fn dec_digits(n: nat) -> Seq<u8>
    decreases n,
{
    if n < 10 {
        seq![(0x30 + n) as u8]
    } else {
        dec_digits(n / 10) + seq![(0x30 + n % 10) as u8]
    }
}

/// The canonical rendering consists of decimal digits and reads back
/// to the number it was made from.
pub proof fn lemma_dec_digits_value(n: nat)
    ensures
        all_digits(dec_digits(n)),
        dec_digits(n).len() >= 1,
        dec_value(dec_digits(n)) == n,
    decreases n,
{
    if n < 10 {
        let d = dec_digits(n);
        assert(d =~= seq![(0x30 + n) as u8]);
        assert(d.drop_last() =~= Seq::<u8>::empty());
        assert(dec_value(d) == dec_value(d.drop_last()) * 10 + digit_val(d.last()));
    } else {
        lemma_dec_digits_value(n / 10);
        let d = dec_digits(n);
        assert(d.drop_last() =~= dec_digits(n / 10));
        assert(d.last() == (0x30 + n % 10) as u8);
        assert(digit_val(d.last()) == n % 10);
        assert(dec_value(d) == (n / 10) * 10 + n % 10);
        assert((n / 10) * 10 + n % 10 == n) by (nonlinear_arith);
    }
}

/// Render a number as ASCII decimal digits.
pub fn format_dec(n: usize) -> (r: Vec<u8>)
    ensures
        r@ == dec_digits(n as nat),
    decreases n,
{
    let mut r: Vec<u8>;
    if n < 10 {
        r = Vec::new();
        r.push(0x30 + (n as u8));
        assert(r@ =~= dec_digits(n as nat));
    } else {
        assert(n / 10 < n) by (nonlinear_arith)
            requires
                n >= 10,
        ;
        r = format_dec(n / 10);
        r.push(0x30 + ((n % 10) as u8));
        assert(r@ =~= dec_digits(n as nat));
    }
    r
}

/// The hexadecimal digit `d` as a lower-case ASCII byte.
pub open spec fn hex_digit_byte(d: nat) -> u8
    recommends
        d < 16,
{
    if d < 10 {
        (0x30 + d) as u8
    } else {
        (0x61 + (d - 10)) as u8
    }
}

/// Canonical hexadecimal rendering of a number, lower case.
pub open spec fn hex_digits(n: nat) -> Seq<u8>
    decreases n,
{
    if n < 16 {
        seq![hex_digit_byte(n)]
    } else {
        hex_digits(n / 16) + seq![hex_digit_byte(n % 16)]
    }
}

/// The canonical hexadecimal rendering consists of hex digits and
/// reads back to the number it was made from.
pub proof fn lemma_hex_digits_value(n: nat)
    ensures
        all_hex_digits(hex_digits(n)),
        hex_digits(n).len() >= 1,
        hex_value(hex_digits(n)) == n,
    decreases n,
{
    if n < 16 {
        let d = hex_digits(n);
        assert(d =~= seq![hex_digit_byte(n)]);
        assert(d.drop_last() =~= Seq::<u8>::empty());
        assert(hex_value(d) == hex_value(d.drop_last()) * 16 + hex_digit_val(d.last()));
    } else {
        lemma_hex_digits_value(n / 16);
        let d = hex_digits(n);
        assert(d.drop_last() =~= hex_digits(n / 16));
        assert(d.last() == hex_digit_byte(n % 16));
        assert(hex_digit_val(d.last()) == n % 16);
        assert(hex_value(d) == (n / 16) * 16 + n % 16);
        assert((n / 16) * 16 + n % 16 == n) by (nonlinear_arith);
    }
}

/// The decimal digit `d` as a character.
pub open spec fn digit_char(d: nat) -> char {
    if d == 0 {
        '0'
    } else if d == 1 {
        '1'
    } else if d == 2 {
        '2'
    } else if d == 3 {
        '3'
    } else if d == 4 {
        '4'
    } else if d == 5 {
        '5'
    } else if d == 6 {
        '6'
    } else if d == 7 {
        '7'
    } else if d == 8 {
        '8'
    } else {
        '9'
    }
}

/// Canonical decimal rendering of a number, as characters.
pub open spec fn dec_chars(n: nat) -> Seq<char>
    decreases n,
{
    if n < 10 {
        seq![digit_char(n)]
    } else {
        dec_chars(n / 10) + seq![digit_char(n % 10)]
    }
}

fn digit_str(d: u64) -> (r: &'static str)
    requires
        d < 10,
    ensures
        r@ =~= seq![digit_char(d as nat)],
{
    proof {
        reveal_strlit("0");
        reveal_strlit("1");
        reveal_strlit("2");
        reveal_strlit("3");
        reveal_strlit("4");
        reveal_strlit("5");
        reveal_strlit("6");
        reveal_strlit("7");
        reveal_strlit("8");
        reveal_strlit("9");
    }
    match d {
        0 => "0",
        1 => "1",
        2 => "2",
        3 => "3",
        4 => "4",
        5 => "5",
        6 => "6",
        7 => "7",
        8 => "8",
        _ => "9",
    }
}

/// Render a number as a decimal string.
pub fn dec_string(n: u64) -> (r: String)
    ensures
        r@ == dec_chars(n as nat),
    decreases n,
{
    if n < 10 {
        let r = digit_str(n).to_owned();
        assert(r@ =~= dec_chars(n as nat));
        r
    } else {
        assert(n / 10 < n) by (nonlinear_arith)
            requires
                n >= 10,
        ;
        let mut r = dec_string(n / 10);
        r.append(digit_str(n % 10));
        assert(r@ =~= dec_chars(n as nat));
        r
    }
}

// --- parsing digit strings ---

/// The value of a digit-string prefix never exceeds the value of the whole.
pub proof fn lemma_dec_value_prefix_le(s: Seq<u8>, i: int)
    requires
        0 <= i <= s.len(),
    ensures
        dec_value(s.take(i)) <= dec_value(s),
    decreases s.len() - i,
{
    if i < s.len() {
        lemma_dec_value_prefix_le(s, i + 1);
        let t = s.take(i + 1);
        assert(t.drop_last() =~= s.take(i));
        assert(dec_value(s.take(i)) * 10 + digit_val(t.last()) == dec_value(t));
        assert(dec_value(s.take(i)) <= dec_value(t)) by (nonlinear_arith)
            requires
                dec_value(s.take(i)) * 10 + digit_val(t.last()) == dec_value(t),
        ;
    } else {
        assert(s.take(i) =~= s);
    }
}

pub proof fn lemma_hex_value_prefix_le(s: Seq<u8>, i: int)
    requires
        0 <= i <= s.len(),
    ensures
        hex_value(s.take(i)) <= hex_value(s),
    decreases s.len() - i,
{
    if i < s.len() {
        lemma_hex_value_prefix_le(s, i + 1);
        let t = s.take(i + 1);
        assert(t.drop_last() =~= s.take(i));
        assert(hex_value(s.take(i)) * 16 + hex_digit_val(t.last()) == hex_value(t));
        assert(hex_value(s.take(i)) <= hex_value(t)) by (nonlinear_arith)
            requires
                hex_value(s.take(i)) * 16 + hex_digit_val(t.last()) == hex_value(t),
        ;
    } else {
        assert(s.take(i) =~= s);
    }
}

/// Parse a nonnegative decimal integer. Returns `None` when the input is
/// empty, holds a non-digit, or does not fit in `usize`.
pub fn parse_dec(s: &[u8]) -> (r: Option<usize>)
    ensures
        match r {
            Some(n) => s@.len() > 0 && all_digits(s@) && n == dec_value(s@),
            None => s@.len() == 0 || !all_digits(s@) || dec_value(s@) > usize::MAX,
        },
{
    if s.len() == 0 {
        return None;
    }
    let mut acc: usize = 0;
    let mut i: usize = 0;
    while i < s.len()
        invariant
            0 <= i <= s@.len(),
            all_digits(s@.take(i as int)),
            acc == dec_value(s@.take(i as int)),
        decreases s@.len() - i,
    {
        let b = s[i];
        if !(0x30 <= b && b <= 0x39) {
            assert(!is_digit_byte(s@[i as int]));
            return None;
        }
        let d = (b - 0x30) as usize;
        let m = match acc.checked_mul(10) {
            Some(m) => m,
            None => {
                proof {
                    assert(dec_value(s@.take(i as int + 1)) == acc * 10 + digit_val(s@[i as int]))
                        by {
                        assert(s@.take(i as int + 1).drop_last() =~= s@.take(i as int));
                    }
                    lemma_dec_value_prefix_le(s@, i as int + 1);
                }
                return None;
            },
        };
        let a2 = match m.checked_add(d) {
            Some(a2) => a2,
            None => {
                proof {
                    assert(dec_value(s@.take(i as int + 1)) == acc * 10 + digit_val(s@[i as int]))
                        by {
                        assert(s@.take(i as int + 1).drop_last() =~= s@.take(i as int));
                    }
                    lemma_dec_value_prefix_le(s@, i as int + 1);
                }
                return None;
            },
        };
        proof {
            assert(s@.take(i as int + 1).drop_last() =~= s@.take(i as int));
        }
        acc = a2;
        i = i + 1;
    }
    proof {
        assert(s@.take(i as int) =~= s@);
    }
    Some(acc)
}

/// Parse a nonnegative hexadecimal integer (either letter case). Returns
/// `None` when the input is empty, holds a non-hex-digit, or does not fit.
pub fn parse_hex(s: &[u8]) -> (r: Option<usize>)
    ensures
        match r {
            Some(n) => s@.len() > 0 && all_hex_digits(s@) && n == hex_value(s@),
            None => s@.len() == 0 || !all_hex_digits(s@) || hex_value(s@) > usize::MAX,
        },
{
    if s.len() == 0 {
        return None;
    }
    let mut acc: usize = 0;
    let mut i: usize = 0;
    while i < s.len()
        invariant
            0 <= i <= s@.len(),
            all_hex_digits(s@.take(i as int)),
            acc == hex_value(s@.take(i as int)),
        decreases s@.len() - i,
    {
        let b = s[i];
        let d: usize;
        if 0x30 <= b && b <= 0x39 {
            d = (b - 0x30) as usize;
        } else if 0x41 <= b && b <= 0x46 {
            d = (b - 0x41 + 10) as usize;
        } else if 0x61 <= b && b <= 0x66 {
            d = (b - 0x61 + 10) as usize;
        } else {
            assert(!is_hex_digit_byte(s@[i as int]));
            return None;
        }
        assert(d == hex_digit_val(s@[i as int]));
        let m = match acc.checked_mul(16) {
            Some(m) => m,
            None => {
                proof {
                    assert(hex_value(s@.take(i as int + 1)) == acc * 16 + hex_digit_val(
                        s@[i as int],
                    )) by {
                        assert(s@.take(i as int + 1).drop_last() =~= s@.take(i as int));
                    }
                    lemma_hex_value_prefix_le(s@, i as int + 1);
                }
                return None;
            },
        };
        let a2 = match m.checked_add(d) {
            Some(a2) => a2,
            None => {
                proof {
                    assert(hex_value(s@.take(i as int + 1)) == acc * 16 + hex_digit_val(
                        s@[i as int],
                    )) by {
                        assert(s@.take(i as int + 1).drop_last() =~= s@.take(i as int));
                    }
                    lemma_hex_value_prefix_le(s@, i as int + 1);
                }
                return None;
            },
        };
        proof {
            assert(s@.take(i as int + 1).drop_last() =~= s@.take(i as int));
        }
        acc = a2;
        i = i + 1;
    }
    proof {
        assert(s@.take(i as int) =~= s@);
    }
    Some(acc)
}

/// The length of the leading run of hexadecimal digits.
pub open spec fn hex_prefix_len(s: Seq<u8>) -> int
    decreases s.len(),
{
    if s.len() > 0 && is_hex_digit_byte(s.first()) {
        1 + hex_prefix_len(s.drop_first())
    } else {
        0
    }
}

/// A scan that stops at the first non-hex-digit finds `hex_prefix_len`.
pub proof fn lemma_hex_prefix_at(s: Seq<u8>, k: int)
    requires
        0 <= k <= s.len(),
        forall|j: int| 0 <= j < k ==> is_hex_digit_byte(#[trigger] s[j]),
        k == s.len() || !is_hex_digit_byte(s[k]),
    ensures
        hex_prefix_len(s) == k,
    decreases k,
{
    if k == 0 {
    } else {
        assert(is_hex_digit_byte(s.first()));
        assert forall|j: int| 0 <= j < k - 1 implies is_hex_digit_byte(
            #[trigger] s.drop_first()[j],
        ) by {
            assert(s.drop_first()[j] == s[j + 1]);
        }
        lemma_hex_prefix_at(s.drop_first(), k - 1);
    }
}

/// A string of hexadecimal digits is its own leading run.
pub proof fn lemma_hex_prefix_all(s: Seq<u8>)
    requires
        all_hex_digits(s),
    ensures
        hex_prefix_len(s) == s.len(),
{
    lemma_hex_prefix_at(s, s.len() as int);
}

/// The length of the leading run of hexadecimal digits.
pub fn hex_prefix(s: &[u8]) -> (r: usize)
    ensures
        r == hex_prefix_len(s@),
        r <= s@.len(),
        all_hex_digits(s@.take(r as int)),
{
    let mut i: usize = 0;
    while i < s.len() && (0x30 <= s[i] && s[i] <= 0x39 || 0x41 <= s[i] && s[i] <= 0x46 || 0x61
        <= s[i] && s[i] <= 0x66)
        invariant
            0 <= i <= s@.len(),
            forall|j: int| 0 <= j < i ==> is_hex_digit_byte(#[trigger] s@[j]),
        decreases s@.len() - i,
    {
        i = i + 1;
    }
    proof {
        lemma_hex_prefix_at(s@, i as int);
    }
    i
}

// --- whitespace trimming ---

pub open spec fn trim_left(s: Seq<u8>) -> Seq<u8>
    decreases s.len(),
{
    if s.len() > 0 && is_ws_byte(s.first()) {
        trim_left(s.drop_first())
    } else {
        s
    }
}

pub open spec fn trim_right(s: Seq<u8>) -> Seq<u8>
    decreases s.len(),
{
    if s.len() > 0 && is_ws_byte(s.last()) {
        trim_right(s.drop_last())
    } else {
        s
    }
}

/// The trimmed form of a byte string: ASCII whitespace removed from
/// both ends.
pub open spec fn trim_spec(s: Seq<u8>) -> Seq<u8> {
    trim_right(trim_left(s))
}

proof fn lemma_trim_left_skip(s: Seq<u8>, k: int)
    requires
        0 <= k <= s.len(),
        forall|j: int| 0 <= j < k ==> is_ws_byte(#[trigger] s[j]),
        k == s.len() || !is_ws_byte(s[k]),
    ensures
        trim_left(s) =~= s.subrange(k, s.len() as int),
    decreases k,
{
    if k == 0 {
        assert(s.subrange(0, s.len() as int) =~= s);
    } else {
        assert(is_ws_byte(s.first()));
        lemma_trim_left_skip(s.drop_first(), k - 1);
        assert(s.drop_first().subrange(k - 1, s.drop_first().len() as int) =~= s.subrange(
            k,
            s.len() as int,
        ));
    }
}

proof fn lemma_trim_right_skip(s: Seq<u8>, k: int)
    requires
        0 <= k <= s.len(),
        forall|j: int| k <= j < s.len() ==> is_ws_byte(#[trigger] s[j]),
        k == 0 || !is_ws_byte(s[k - 1]),
    ensures
        trim_right(s) =~= s.subrange(0, k),
    decreases s.len() - k,
{
    if k == s.len() {
        assert(s.subrange(0, k) =~= s);
    } else {
        assert(is_ws_byte(s.last()));
        lemma_trim_right_skip(s.drop_last(), k);
        assert(s.drop_last().subrange(0, k) =~= s.subrange(0, k));
    }
}

/// Trim ASCII whitespace from both ends of a byte string.
pub fn trim_bytes(s: &[u8]) -> (r: Vec<u8>)
    ensures
        r@ == trim_spec(s@),
{
    let mut start: usize = 0;
    while start < s.len() && (s[start] == 0x20 || s[start] == 0x09 || s[start] == 0x0d || s[start]
        == 0x0a)
        invariant
            0 <= start <= s@.len(),
            forall|j: int| 0 <= j < start ==> is_ws_byte(#[trigger] s@[j]),
        decreases s@.len() - start,
    {
        start = start + 1;
    }
    proof {
        lemma_trim_left_skip(s@, start as int);
    }
    let ghost left = s@.subrange(start as int, s@.len() as int);
    let mut end: usize = s.len();
    while end > start && (s[end - 1] == 0x20 || s[end - 1] == 0x09 || s[end - 1] == 0x0d || s[end
        - 1] == 0x0a)
        invariant
            start <= end <= s@.len(),
            forall|j: int| end <= j < s@.len() ==> is_ws_byte(#[trigger] s@[j]),
        decreases end,
    {
        end = end - 1;
    }
    proof {
        assert(forall|j: int|
            (end - start) <= j < left.len() ==> is_ws_byte(#[trigger] left[j]));
        lemma_trim_right_skip(left, end - start);
        assert(left.subrange(0, end - start) =~= s@.subrange(start as int, end as int));
    }
    let mut r: Vec<u8> = Vec::new();
    let mut i: usize = start;
    while i < end
        invariant
            start <= i <= end <= s@.len(),
            r@ =~= s@.subrange(start as int, i as int),
        decreases end - i,
    {
        r.push(s[i]);
        assert(r@ =~= s@.subrange(start as int, i as int + 1));
        i = i + 1;
    }
    assert(r@ =~= s@.subrange(start as int, end as int));
    r
}

/// Trim ASCII whitespace from the end of a byte string only.
pub fn trim_end_bytes(s: &[u8]) -> (r: Vec<u8>)
    ensures
        r@ == trim_right(s@),
{
    let mut end: usize = s.len();
    while end > 0 && (s[end - 1] == 0x20 || s[end - 1] == 0x09 || s[end - 1] == 0x0d || s[end - 1]
        == 0x0a)
        invariant
            0 <= end <= s@.len(),
            forall|j: int| end <= j < s@.len() ==> is_ws_byte(#[trigger] s@[j]),
        decreases end,
    {
        end = end - 1;
    }
    proof {
        lemma_trim_right_skip(s@, end as int);
    }
    let mut r: Vec<u8> = Vec::new();
    let mut i: usize = 0;
    while i < end
        invariant
            0 <= i <= end <= s@.len(),
            r@ =~= s@.subrange(0, i as int),
        decreases end - i,
    {
        r.push(s[i]);
        assert(r@ =~= s@.subrange(0, i as int + 1));
        i = i + 1;
    }
    assert(r@ =~= s@.subrange(0, end as int));
    r
}

proof fn lemma_trim_left_len(s: Seq<u8>)
    ensures
        trim_left(s).len() <= s.len(),
        s.len() > 0 && is_ws_byte(s.first()) ==> trim_left(s).len() < s.len(),
    decreases s.len(),
{
    if s.len() > 0 && is_ws_byte(s.first()) {
        lemma_trim_left_len(s.drop_first());
    }
}

proof fn lemma_trim_right_len(s: Seq<u8>)
    ensures
        trim_right(s).len() <= s.len(),
        s.len() > 0 && is_ws_byte(s.last()) ==> trim_right(s).len() < s.len(),
    decreases s.len(),
{
    if s.len() > 0 && is_ws_byte(s.last()) {
        lemma_trim_right_len(s.drop_last());
    }
}

/// A nonempty fixed point of trimming has no whitespace at either end.
pub proof fn lemma_trim_fixed_ends(s: Seq<u8>)
    requires
        trim_spec(s) == s,
        s.len() > 0,
    ensures
        !is_ws_byte(s.first()),
        !is_ws_byte(s.last()),
{
    lemma_trim_left_len(s);
    lemma_trim_right_len(trim_left(s));
    if !is_ws_byte(s.first()) {
        assert(trim_left(s) == s);
        lemma_trim_right_len(s);
    }
}

/// Trimming a byte string whose ends are not whitespace, followed by a
/// whitespace suffix, leaves exactly the leading part.
pub proof fn lemma_trim_clean_ws_suffix(d: Seq<u8>, suffix: Seq<u8>)
    requires
        d.len() > 0,
        !is_ws_byte(d.first()),
        !is_ws_byte(d.last()),
        forall|j: int| 0 <= j < suffix.len() ==> is_ws_byte(#[trigger] suffix[j]),
    ensures
        trim_spec(d + suffix) == d,
{
    let line = d + suffix;
    assert(line.first() == d.first());
    assert(trim_left(line) == line);
    assert(forall|j: int| d.len() <= j < line.len() ==> is_ws_byte(#[trigger] line[j]));
    assert(line[d.len() - 1] == d.last());
    lemma_trim_right_skip(line, d.len() as int);
    assert(line.subrange(0, d.len() as int) =~= d);
}

/// Trimming a byte string made of non-whitespace bytes followed by a
/// CRLF leaves exactly the leading part.
pub proof fn lemma_trim_line_of(d: Seq<u8>, line: Seq<u8>)
    requires
        line == d + seq![0x0du8, 0x0au8],
        d.len() > 0,
        forall|i: int| 0 <= i < d.len() ==> !is_ws_byte(#[trigger] d[i]),
    ensures
        trim_spec(line) == d,
{
    assert(line.first() == d[0]);
    assert(!is_ws_byte(line.first()));
    assert(trim_left(line) == line);
    assert(forall|j: int| d.len() <= j < line.len() ==> is_ws_byte(#[trigger] line[j]));
    assert(line[d.len() - 1] == d.last());
    lemma_trim_right_skip(line, d.len() as int);
    assert(line.subrange(0, d.len() as int) =~= d);
}

// --- upper-casing ---

/// Upper-case an ASCII letter; leave every other byte as it is.
pub open spec fn upper_byte(b: u8) -> u8 {
    if 0x61 <= b <= 0x7a {
        (b - 0x20) as u8
    } else {
        b
    }
}

pub open spec fn upper_seq(s: Seq<u8>) -> Seq<u8> {
    s.map_values(|b: u8| upper_byte(b))
}

/// Upper-case the ASCII letters of a byte string.
pub fn ascii_upper(s: &[u8]) -> (r: Vec<u8>)
    ensures
        r@ == upper_seq(s@),
{
    let mut r: Vec<u8> = Vec::new();
    let mut i: usize = 0;
    while i < s.len()
        invariant
            0 <= i <= s@.len(),
            r@ =~= upper_seq(s@).take(i as int),
        decreases s@.len() - i,
    {
        let b = s[i];
        if 0x61 <= b && b <= 0x7a {
            r.push(b - 0x20);
        } else {
            r.push(b);
        }
        assert(r@ =~= upper_seq(s@).take(i as int + 1));
        i = i + 1;
    }
    assert(r@ =~= upper_seq(s@));
    r
}

// --- searching ---

/// Index of the first occurrence of `b` in `s`, or `s.len()` when absent.
pub open spec fn idx_of(s: Seq<u8>, b: u8) -> int
    decreases s.len(),
{
    if s.len() == 0 {
        0
    } else if s.first() == b {
        0
    } else {
        1 + idx_of(s.drop_first(), b)
    }
}

pub proof fn lemma_idx_of(s: Seq<u8>, b: u8)
    ensures
        0 <= idx_of(s, b) <= s.len(),
        idx_of(s, b) < s.len() ==> s[idx_of(s, b)] == b,
        forall|j: int| 0 <= j < idx_of(s, b) ==> s[j] != b,
    decreases s.len(),
{
    if s.len() > 0 && s.first() != b {
        lemma_idx_of(s.drop_first(), b);
        assert forall|j: int| 0 <= j < idx_of(s, b) implies s[j] != b by {
            if j > 0 {
                assert(s[j] == s.drop_first()[j - 1]);
            }
        }
    }
}

/// Find the first occurrence of `b` in `s` at or after `from`.
pub fn find_byte(s: &[u8], b: u8, from: usize) -> (r: Option<usize>)
    requires
        from <= s@.len(),
    ensures
        match r {
            Some(i) => from <= i < s@.len() && s@[i as int] == b && forall|j: int|
                from <= j < i ==> s@[j] != b,
            None => forall|j: int| from <= j < s@.len() ==> s@[j] != b,
        },
{
    let mut i: usize = from;
    while i < s.len()
        invariant
            from <= i <= s@.len(),
            forall|j: int| from <= j < i ==> s@[j] != b,
        decreases s@.len() - i,
    {
        if s[i] == b {
            return Some(i);
        }
        i = i + 1;
    }
    None
}

/// The first occurrence found by a scan agrees with `idx_of`.
pub proof fn lemma_first_occurrence_is_idx_of(s: Seq<u8>, b: u8, i: int)
    requires
        0 <= i < s.len(),
        s[i] == b,
        forall|j: int| 0 <= j < i ==> s[j] != b,
    ensures
        idx_of(s, b) == i,
    decreases s.len(),
{
    if i > 0 {
        lemma_first_occurrence_is_idx_of(s.drop_first(), b, i - 1);
    }
}

/// When `b` does not occur, `idx_of` is the length.
pub proof fn lemma_no_occurrence_idx_of(s: Seq<u8>, b: u8)
    requires
        forall|j: int| 0 <= j < s.len() ==> s[j] != b,
    ensures
        idx_of(s, b) == s.len(),
    decreases s.len(),
{
    if s.len() > 0 {
        lemma_no_occurrence_idx_of(s.drop_first(), b);
    }
}

/// Does `s` start with `prefix`?
pub open spec fn bytes_has_prefix(s: Seq<u8>, prefix: Seq<u8>) -> bool {
    s.len() >= prefix.len() && s.subrange(0, prefix.len() as int) == prefix
}

/// Does `s` start with `prefix`?
pub fn bytes_starts_with(s: &[u8], prefix: &[u8]) -> (r: bool)
    ensures
        r == (s@.len() >= prefix@.len() && s@.subrange(0, prefix@.len() as int) =~= prefix@),
{
    if s.len() < prefix.len() {
        return false;
    }
    let mut i: usize = 0;
    while i < prefix.len()
        invariant
            0 <= i <= prefix@.len() <= s@.len(),
            forall|j: int| 0 <= j < i ==> s@[j] == prefix@[j],
        decreases prefix@.len() - i,
    {
        if s[i] != prefix[i] {
            assert(s@.subrange(0, prefix@.len() as int)[i as int] != prefix@[i as int]);
            return false;
        }
        i = i + 1;
    }
    assert(s@.subrange(0, prefix@.len() as int) =~= prefix@);
    true
}

/// Are two byte strings equal?
pub fn bytes_eq(a: &[u8], b: &[u8]) -> (r: bool)
    ensures
        r == (a@ =~= b@),
{
    if a.len() != b.len() {
        return false;
    }
    let mut i: usize = 0;
    while i < a.len()
        invariant
            0 <= i <= a@.len(),
            a@.len() == b@.len(),
            forall|j: int| 0 <= j < i ==> a@[j] == b@[j],
        decreases a@.len() - i,
    {
        if a[i] != b[i] {
            return false;
        }
        i = i + 1;
    }
    true
}

/// Copy a subrange of a byte slice into a fresh vector.
pub fn bytes_subrange(s: &[u8], from: usize, to: usize) -> (r: Vec<u8>)
    requires
        from <= to <= s@.len(),
    ensures
        r@ == s@.subrange(from as int, to as int),
{
    let mut r: Vec<u8> = Vec::new();
    let mut i: usize = from;
    while i < to
        invariant
            from <= i <= to <= s@.len(),
            r@ =~= s@.subrange(from as int, i as int),
        decreases to - i,
    {
        r.push(s[i]);
        assert(r@ =~= s@.subrange(from as int, i as int + 1));
        i = i + 1;
    }
    assert(r@ =~= s@.subrange(from as int, to as int));
    r
}

} // verus!
