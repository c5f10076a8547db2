//! Indentation: detecting it from a document, and the user's choice of it.

use vstd::prelude::*;
use vstd::string::StringSliceAdditionalSpecFns;
use vstd::utf8::{encode_utf8, is_ascii_chars, is_ascii_chars_encode_utf8};

verus! {

/// The byte `' '`.
pub const SPACE: u8 = 0x20;

/// The byte `'\t'`.
pub const TAB: u8 = 0x09;

/// The byte `'\n'`.
pub const NEWLINE: u8 = 0x0a;

/// The indentation used when a document shows none.
pub const DEFAULT_INDENT: usize = 2;

/// Number of consecutive bytes equal to `c` in `b`, starting at index `i`.
pub open spec fn run_length(b: Seq<u8>, i: int, c: u8) -> nat
    decreases b.len() - i,
{
    if 0 <= i < b.len() && b[i] == c {
        1 + run_length(b, i + 1, c)
    } else {
        0
    }
}

/// The indentation of the line that starts at `start`: its leading spaces,
/// or, when it starts with no space, its leading tabs.
pub open spec fn line_indent(b: Seq<u8>, start: int) -> nat {
    if run_length(b, start, SPACE) > 0 {
        run_length(b, start, SPACE)
    } else {
        run_length(b, start, TAB)
    }
}

/// The indentation of the first line that begins after a newline at or after
/// index `i` and is indented; `DEFAULT_INDENT` when there is no such line.
pub open spec fn indent_from(b: Seq<u8>, i: int) -> nat
    decreases b.len() - i,
{
    if 0 <= i < b.len() {
        if b[i] == NEWLINE && line_indent(b, i + 1) > 0 {
            line_indent(b, i + 1)
        } else {
            indent_from(b, i + 1)
        }
    } else {
        DEFAULT_INDENT as nat
    }
}

/// The indentation that a document (its UTF-8 bytes) shows: that of the first
/// indented line after the first line, or `DEFAULT_INDENT`.
pub open spec fn spec_detect_indent(b: Seq<u8>) -> nat {
    indent_from(b, 0)
}

/// Counts the bytes equal to `c` in `b` from `start` on, up to the first other byte.
fn count_run(b: &[u8], start: usize, c: u8) -> (n: usize)
    requires
        start <= b@.len(),
    ensures
        n == run_length(b@, start as int, c),
{
    let mut j = start;
    while j < b.len() && b[j] == c
        invariant
            start <= j <= b@.len(),
            run_length(b@, start as int, c) == (j - start) + run_length(b@, j as int, c),
        decreases b@.len() - j,
    {
        j = j + 1;
    }
    j - start
}

/// Detects the indentation of `input`: the leading spaces of the first line
/// after the first one that starts with a space, or the leading tabs of the
/// first such line that starts with a tab, whichever comes first; 2 if no
/// line after the first is indented.
pub fn detect_indent(input: &str) -> (indent: usize)
    ensures
        indent == spec_detect_indent(input.spec_bytes()),
        indent >= 1,
{
    let bytes = input.as_bytes();
    let n = bytes.len();
    let mut i: usize = 0;
    while i < n
        invariant
            0 <= i <= n,
            n == bytes@.len(),
            bytes@ == input.spec_bytes(),
            indent_from(bytes@, 0) == indent_from(bytes@, i as int),
        decreases n - i,
    {
        if bytes[i] == NEWLINE {
            let spaces = count_run(bytes, i + 1, SPACE);
            if spaces > 0 {
                return spaces;
            }
            let tabs = count_run(bytes, i + 1, TAB);
            if tabs > 0 {
                return tabs;
            }
        }
        i = i + 1;
    }
    DEFAULT_INDENT
}


/// A run of `k` bytes equal to `c` from `start`, ended by the end of the
/// text or by another byte, has length `k`.
proof fn lemma_run_length_exact(b: Seq<u8>, start: int, k: int, c: u8)
    requires
        0 <= start,
        0 <= k,
        start + k <= b.len(),
        forall|j: int| start <= j < start + k ==> b[j] == c,
        start + k == b.len() || b[start + k] != c,
    ensures
        run_length(b, start, c) == k,
    decreases k,
{
    if k > 0 {
        lemma_run_length_exact(b, start + 1, k - 1, c);
    }
}

/// A line that starts with neither a space nor a tab is not indented.
proof fn lemma_line_not_indented(b: Seq<u8>, start: int)
    requires
        0 <= start,
        !(start < b.len() && (b[start] == SPACE || b[start] == TAB)),
    ensures
        line_indent(b, start) == 0,
{
}

/// Scanning from `i` reaches the newline at `p` when no newline between
/// them starts an indented line.
proof fn lemma_indent_from_skips(b: Seq<u8>, i: int, p: int)
    requires
        0 <= i <= p < b.len(),
        forall|q: int| 0 <= q < p && #[trigger] b[q] == NEWLINE ==>
            !(q + 1 < b.len() && (b[q + 1] == SPACE || b[q + 1] == TAB)),
    ensures
        indent_from(b, i) == indent_from(b, p),
    decreases p - i,
{
    if i < p {
        if b[i] == NEWLINE {
            lemma_line_not_indented(b, i + 1);
        }
        lemma_indent_from_skips(b, i + 1, p);
    }
}

/// The indentation is that of the first line after a newline that starts
/// with spaces: the number of spaces it starts with.
pub proof fn lemma_detect_indent_spaces(b: Seq<u8>, p: int, k: int)
    requires
        0 <= p < b.len(),
        b[p] == NEWLINE,
        forall|q: int| 0 <= q < p && #[trigger] b[q] == NEWLINE ==>
            !(q + 1 < b.len() && (b[q + 1] == SPACE || b[q + 1] == TAB)),
        k > 0,
        p + 1 + k <= b.len(),
        forall|j: int| p + 1 <= j < p + 1 + k ==> b[j] == SPACE,
        p + 1 + k == b.len() || b[p + 1 + k] != SPACE,
    ensures
        spec_detect_indent(b) == k,
{
    lemma_indent_from_skips(b, 0, p);
    lemma_run_length_exact(b, p + 1, k, SPACE);
}

/// The indentation is that of the first line after a newline that starts
/// with tabs: the number of tabs it starts with.
pub proof fn lemma_detect_indent_tabs(b: Seq<u8>, p: int, k: int)
    requires
        0 <= p < b.len(),
        b[p] == NEWLINE,
        forall|q: int| 0 <= q < p && #[trigger] b[q] == NEWLINE ==>
            !(q + 1 < b.len() && (b[q + 1] == SPACE || b[q + 1] == TAB)),
        k > 0,
        p + 1 + k <= b.len(),
        forall|j: int| p + 1 <= j < p + 1 + k ==> b[j] == TAB,
        p + 1 + k == b.len() || b[p + 1 + k] != TAB,
    ensures
        spec_detect_indent(b) == k,
{
    lemma_indent_from_skips(b, 0, p);
    lemma_run_length_exact(b, p + 1, k, TAB);
    assert(run_length(b, p + 1, SPACE) == 0);
}

/// Without a line after a newline that starts with a space or a tab, the
/// indentation is 2.
pub proof fn lemma_detect_indent_default(b: Seq<u8>)
    requires
        forall|q: int| 0 <= q < b.len() && #[trigger] b[q] == NEWLINE ==>
            !(q + 1 < b.len() && (b[q + 1] == SPACE || b[q + 1] == TAB)),
    ensures
        spec_detect_indent(b) == 2,
{
    lemma_indent_from_default(b, 0);
}

/// Scanning finds no indented line, from any index.
proof fn lemma_indent_from_default(b: Seq<u8>, i: int)
    requires
        0 <= i,
        forall|q: int| 0 <= q < b.len() && #[trigger] b[q] == NEWLINE ==>
            !(q + 1 < b.len() && (b[q + 1] == SPACE || b[q + 1] == TAB)),
    ensures
        indent_from(b, i) == 2,
    decreases b.len() - i,
{
    if i < b.len() {
        if b[i] == NEWLINE {
            lemma_line_not_indented(b, i + 1);
        }
        lemma_indent_from_default(b, i + 1);
    }
}

/// Runs are the same in `r` and in `r` after other text.
proof fn lemma_run_length_shift(x: Seq<u8>, r: Seq<u8>, s: int, c: u8)
    requires
        0 <= s,
    ensures
        run_length(x + r, x.len() + s, c) == run_length(r, s, c),
    decreases r.len() - s,
{
    if s < r.len() {
        lemma_run_length_shift(x, r, s + 1, c);
        assert((x + r)[x.len() + s] == r[s]);
    }
}

/// Scanning `r` after other text finds what scanning `r` finds.
proof fn lemma_indent_from_shift(x: Seq<u8>, r: Seq<u8>, j: int)
    requires
        0 <= j,
    ensures
        indent_from(x + r, x.len() + j) == indent_from(r, j),
    decreases r.len() - j,
{
    if j < r.len() {
        lemma_indent_from_shift(x, r, j + 1);
        lemma_run_length_shift(x, r, j + 1, SPACE);
        lemma_run_length_shift(x, r, j + 1, TAB);
        assert((x + r)[x.len() + j] == r[j]);
    }
}

/// Scanning a first line without a newline finds nothing in it.
proof fn lemma_indent_from_first_line(x: Seq<u8>, r: Seq<u8>, i: int)
    requires
        0 <= i <= x.len(),
        forall|j: int| 0 <= j < x.len() ==> x[j] != NEWLINE,
    ensures
        indent_from(x + r, i) == indent_from(x + r, x.len() as int),
    decreases x.len() - i,
{
    if i < x.len() {
        assert((x + r)[i] == x[i]);
        lemma_indent_from_first_line(x, r, i + 1);
    }
}

/// Text before the first newline does not change the indentation:
/// prepending text without a newline to a document keeps its indentation.
pub proof fn lemma_detect_indent_ignores_first_line(x: Seq<u8>, r: Seq<u8>)
    requires
        forall|j: int| 0 <= j < x.len() ==> x[j] != NEWLINE,
    ensures
        spec_detect_indent(x + r) == spec_detect_indent(r),
{
    lemma_indent_from_first_line(x, r, 0);
    lemma_indent_from_shift(x, r, 0);
}

/// How to indent the output: like the input, or by a fixed number of spaces
/// (0 for compact output).
#[derive(Clone, Copy, Debug, PartialEq, Eq, Structural)]
pub enum IndentOption {
    Auto,
    Fixed(usize),
}

/// The ASCII lower case of a byte.
pub open spec fn ascii_lower(c: u8) -> u8 {
    if 65 <= c <= 90 {
        (c + 32) as u8
    } else {
        c
    }
}

/// The bytes spell "auto", in any mix of ASCII cases.
pub open spec fn is_auto_text(b: Seq<u8>) -> bool {
    &&& b.len() == 4
    &&& ascii_lower(b[0]) == 97
    &&& ascii_lower(b[1]) == 117
    &&& ascii_lower(b[2]) == 116
    &&& ascii_lower(b[3]) == 111
}

/// An ASCII decimal digit.
pub open spec fn is_digit(c: u8) -> bool {
    48 <= c <= 57
}

/// The number that a sequence of decimal digits spells.
pub open spec fn digits_value(d: Seq<u8>) -> nat
    decreases d.len(),
{
    if d.len() == 0 {
        0
    } else {
        digits_value(d.drop_last()) * 10 + (d.last() - 48) as nat
    }
}

/// The digits of a decimal number: the text without its leading `'+'`, if any.
pub open spec fn decimal_digits(b: Seq<u8>) -> Seq<u8> {
    if b.len() > 0 && b[0] == 43 {
        b.drop_first()
    } else {
        b
    }
}

/// The text is an unsigned decimal number: an optional `'+'`, then one or
/// more digits.
pub open spec fn is_decimal(b: Seq<u8>) -> bool {
    let d = decimal_digits(b);
    &&& d.len() > 0
    &&& forall|i: int| 0 <= i < d.len() ==> is_digit(#[trigger] d[i])
}

/// The option that a text (its UTF-8 bytes) names: "auto" in any case, or a
/// decimal number that fits in `usize`; `None` for any other text.
pub open spec fn spec_parse_indent_option(b: Seq<u8>) -> Option<IndentOption> {
    if is_auto_text(b) {
        Some(IndentOption::Auto)
    } else if is_decimal(b) && digits_value(decimal_digits(b)) <= usize::MAX {
        Some(IndentOption::Fixed(digits_value(decimal_digits(b)) as usize))
    } else {
        None
    }
}

/// The message for a text that names no option.
pub open spec fn parse_error_message(text: Seq<char>) -> Seq<char> {
    "expected a number or \"auto\", got \""@ + text + "\""@
}

/// The character of a decimal digit.
pub open spec fn digit_char(d: nat) -> char {
    if d == 0 {
        '0'
    } else if d == 1 {
        '1'
    } else if d == 2 {
        '2'
    } else if d == 3 {
        '3'
    } else if d == 4 {
        '4'
    } else if d == 5 {
        '5'
    } else if d == 6 {
        '6'
    } else if d == 7 {
        '7'
    } else if d == 8 {
        '8'
    } else {
        '9'
    }
}

/// The decimal text of a number, without leading zeros.
pub open spec fn decimal_text(n: nat) -> Seq<char>
    decreases n,
{
    if n < 10 {
        seq![digit_char(n)]
    } else {
        decimal_text(n / 10).push(digit_char(n % 10))
    }
}

/// The text of an option: "auto", or the number.
pub open spec fn indent_option_text(option: IndentOption) -> Seq<char> {
    match option {
        IndentOption::Auto => "auto"@,
        IndentOption::Fixed(n) => decimal_text(n as nat),
    }
}

/// The ASCII lower case of a byte.
fn ascii_lower_exec(c: u8) -> (l: u8)
    ensures
        l == ascii_lower(c),
{
    if 65 <= c && c <= 90 {
        c + 32
    } else {
        c
    }
}

/// A prefix of digits has a value no larger than the whole.
proof fn lemma_digits_value_prefix(d: Seq<u8>, k: int)
    requires
        0 <= k <= d.len(),
        forall|i: int| 0 <= i < d.len() ==> is_digit(#[trigger] d[i]),
    ensures
        digits_value(d.take(k)) <= digits_value(d),
    decreases d.len(),
{
    if k < d.len() {
        assert(d.drop_last().take(k) =~= d.take(k));
        lemma_digits_value_prefix(d.drop_last(), k);
    } else {
        assert(d.take(k) =~= d);
    }
}

/// The one-character text of a digit.
fn digit_text(d: usize) -> (text: &'static str)
    requires
        d < 10,
    ensures
        text@ == seq![digit_char(d as nat)],
{
    proof {
        reveal_strlit("0");
        reveal_strlit("1");
        reveal_strlit("2");
        reveal_strlit("3");
        reveal_strlit("4");
        reveal_strlit("5");
        reveal_strlit("6");
        reveal_strlit("7");
        reveal_strlit("8");
        reveal_strlit("9");
    }
    if d == 0 {
        "0"
    } else if d == 1 {
        "1"
    } else if d == 2 {
        "2"
    } else if d == 3 {
        "3"
    } else if d == 4 {
        "4"
    } else if d == 5 {
        "5"
    } else if d == 6 {
        "6"
    } else if d == 7 {
        "7"
    } else if d == 8 {
        "8"
    } else {
        "9"
    }
}

/// Appends the decimal text of `n` to `out`.
fn append_decimal(out: &mut String, n: usize)
    ensures
        final(out)@ == old(out)@ + decimal_text(n as nat),
    decreases n,
{
    if n >= 10 {
        append_decimal(out, n / 10);
    }
    let digit = digit_text(n % 10);
    out.append(digit);
    assert(n < 10 ==> n % 10 == n);
}

/// The message that refuses a text that names no option.
fn refusal(text: &str) -> (message: String)
    ensures
        message@ == parse_error_message(text@),
{
    let mut message = "expected a number or \"auto\", got \"".to_owned();
    message.append(text);
    message.append("\"");
    message
}

impl IndentOption {
    /// Reads an option from its text: "auto" in any ASCII case, or an
    /// unsigned decimal number (with an optional leading `'+'`) that fits in
    /// `usize`. Any other text is refused with a message that quotes it.
    pub fn parse_str(text: &str) -> (res: Result<IndentOption, String>)
        ensures
            match spec_parse_indent_option(text.spec_bytes()) {
                Some(option) => res == Ok::<IndentOption, String>(option),
                None => res matches Err(message) && message@ == parse_error_message(text@),
            },
    {
        let b = text.as_bytes();
        let n = b.len();
        if n == 4 && ascii_lower_exec(b[0]) == 97 && ascii_lower_exec(b[1]) == 117
            && ascii_lower_exec(b[2]) == 116 && ascii_lower_exec(b[3]) == 111 {
            return Ok(IndentOption::Auto);
        }
        let start: usize = if n > 0 && b[0] == 43 { 1 } else { 0 };
        let ghost d = decimal_digits(b@);
        assert(d =~= b@.skip(start as int));
        if start == n {
            return Err(refusal(text));
        }
        let mut value: usize = 0;
        let mut i: usize = start;
        while i < n
            invariant
                start <= i <= n,
                start < n,
                n == b@.len(),
                b@ == text.spec_bytes(),
                d == b@.skip(start as int),
                d == decimal_digits(b@),
                !is_auto_text(b@),
                forall|j: int| 0 <= j < i - start ==> is_digit(#[trigger] d[j]),
                value == digits_value(d.take(i - start)),
            decreases n - i,
        {
            let c = b[i];
            if c < 48 || c > 57 {
                assert(!is_digit(d[i - start]));
                return Err(refusal(text));
            }
            let digit = (c - 48) as usize;
            let ghost next = d.take(i - start + 1);
            assert(next.drop_last() =~= d.take(i - start));
            let grown = match value.checked_mul(10) {
                Some(tens) => tens.checked_add(digit),
                None => None,
            };
            match grown {
                Some(v) => {
                    value = v;
                    i = i + 1;
                },
                None => {
                    proof {
                        if is_decimal(b@) {
                            lemma_digits_value_prefix(d, i - start + 1);
                        }
                    }
                    return Err(refusal(text));
                },
            }
        }
        assert(d.take(n - start) =~= d);
        Ok(IndentOption::Fixed(value))
    }

    /// The text of the option: "auto", or the number in decimal.
    pub fn to_string(&self) -> (text: String)
        ensures
            text@ == indent_option_text(*self),
    {
        match self {
            IndentOption::Auto => "auto".to_owned(),
            IndentOption::Fixed(n) => {
                let mut text = String::new();
                append_decimal(&mut text, *n);
                assert(text@ =~= decimal_text(*n as nat));
                text
            },
        }
    }
}

/// The bytes of ASCII characters.
pub open spec fn ascii_bytes(t: Seq<char>) -> Seq<u8> {
    t.map_values(|c: char| c as u8)
}

proof fn lemma_digit_char(d: nat)
    requires
        d < 10,
    ensures
        '0' <= digit_char(d) <= '9',
        digit_char(d) as u8 == 48 + d,
{
}

/// The decimal text of `n` is made of digits and spells `n`.
proof fn lemma_decimal_text(n: nat)
    ensures
        decimal_text(n).len() >= 1,
        forall|i: int| 0 <= i < decimal_text(n).len() ==> '0' <= #[trigger] decimal_text(n)[i] <= '9',
        digits_value(ascii_bytes(decimal_text(n))) == n,
    decreases n,
{
    let t = decimal_text(n);
    if n < 10 {
        lemma_digit_char(n);
        assert(ascii_bytes(t).drop_last() =~= Seq::<u8>::empty());
        assert(ascii_bytes(t).last() == 48 + n);
    } else {
        lemma_decimal_text(n / 10);
        lemma_digit_char(n % 10);
        assert(ascii_bytes(t).drop_last() =~= ascii_bytes(decimal_text(n / 10)));
        assert(ascii_bytes(t).last() == 48 + n % 10);
        assert(n / 10 * 10 + n % 10 == n);
    }
    let b = ascii_bytes(t);
    assert(b.len() == t.len());
    assert(digits_value(b) == digits_value(b.drop_last()) * 10 + (b.last() - 48) as nat);
    if n < 10 {
        assert(digits_value(b.drop_last()) == 0);
    }
}

/// Reading the text of an option gives the option back.
pub proof fn lemma_parse_option_text(option: IndentOption)
    ensures
        spec_parse_indent_option(encode_utf8(indent_option_text(option))) == Some(option),
{
    let t = indent_option_text(option);
    match option {
        IndentOption::Auto => {
            reveal_strlit("auto");
            assert(is_ascii_chars(t));
            is_ascii_chars_encode_utf8(t);
        },
        IndentOption::Fixed(n) => {
            lemma_decimal_text(n as nat);
            assert(is_ascii_chars(t));
            is_ascii_chars_encode_utf8(t);
            let b = encode_utf8(t);
            assert(b =~= ascii_bytes(t));
            assert(decimal_digits(b) == b);
            assert(!is_auto_text(b));
        },
    }
}

impl core::str::FromStr for IndentOption {
    type Err = String;

    fn from_str(text: &str) -> (res: Result<Self, Self::Err>)
        ensures
            match spec_parse_indent_option(text.spec_bytes()) {
                Some(option) => res == Ok::<IndentOption, String>(option),
                None => res matches Err(message) && message@ == parse_error_message(text@),
            },
    {
        IndentOption::parse_str(text)
    }
}

} // verus!
