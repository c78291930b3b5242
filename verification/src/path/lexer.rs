use vstd::prelude::*;

verus! {

/// How many numbers each path command takes; `-1` for a byte that is no command.
pub open spec fn spec_params_count(c: u8) -> int {
    if c == 65 || c == 97 {
        7  // A a
    } else if c == 67 || c == 99 {
        6  // C c
    } else if c == 72 || c == 104 {
        1  // H h
    } else if c == 76 || c == 108 {
        2  // L l
    } else if c == 77 || c == 109 {
        2  // M m
    } else if c == 81 || c == 113 {
        4  // Q q
    } else if c == 83 || c == 115 {
        4  // S s
    } else if c == 84 || c == 116 {
        2  // T t
    } else if c == 86 || c == 118 {
        1  // V v
    } else if c == 90 || c == 122 {
        0  // Z z
    } else {
        -1
    }
}

/// A byte that names a path command.
pub open spec fn is_command(c: u8) -> bool {
    spec_params_count(c) >= 0
}

/// The number of parameters that path command `c` takes, or `-1` when `c` is
/// not a command letter.
pub fn params_count(c: u8) -> (r: i32)
    ensures
        r == spec_params_count(c),
{
    match c {
        65u8 | 97u8 => 7,  // A a
        67u8 | 99u8 => 6,  // C c
        72u8 | 104u8 => 1,  // H h
        76u8 | 108u8 => 2,  // L l
        77u8 | 109u8 => 2,  // M m
        81u8 | 113u8 => 4,  // Q q
        83u8 | 115u8 => 4,  // S s
        84u8 | 116u8 => 2,  // T t
        86u8 | 118u8 => 1,  // V v
        90u8 | 122u8 => 0,  // Z z
        _ => -1,
    }
}

pub open spec fn is_digit(b: u8) -> bool {
    48 <= b <= 57
}

pub open spec fn is_sign(b: u8) -> bool {
    b == 43 || b == 45
}

pub open spec fn is_exp_mark(b: u8) -> bool {
    b == 101 || b == 69
}

/// Bytes that separate tokens: space, tab, carriage return, line feed, comma.
pub open spec fn is_separator(b: u8) -> bool {
    b == 32 || b == 9 || b == 13 || b == 10 || b == 44
}

/// The number of consecutive ASCII digits in `s` from position `i`.
pub open spec fn digit_run(s: Seq<u8>, i: int) -> nat
    decreases s.len() - i,
{
    if 0 <= i < s.len() && is_digit(s[i]) {
        1 + digit_run(s, i + 1)
    } else {
        0
    }
}

/// 1 when `s` holds a sign at `i`, else 0.
pub open spec fn sign_len(s: Seq<u8>, i: int) -> int {
    if 0 <= i < s.len() && is_sign(s[i]) {
        1
    } else {
        0
    }
}

/// Where the mantissa of a number that starts (after its sign) at `p` ends:
/// digits with an optional fraction (`12`, `12.`, `12.5`), or a point followed by
/// at least one digit (`.5`). `None` when no mantissa starts there.
pub open spec fn mantissa_end(s: Seq<u8>, p: int) -> Option<int> {
    let int_digits = digit_run(s, p);
    if int_digits > 0 {
        let q = p + int_digits;
        if 0 <= q < s.len() && s[q] == 46 {
            Some(q + 1 + digit_run(s, q + 1))
        } else {
            Some(q)
        }
    } else if 0 <= p < s.len() && s[p] == 46 && digit_run(s, p + 1) > 0 {
        Some(p + 1 + digit_run(s, p + 1))
    } else {
        None
    }
}

/// Where an optional exponent that may start at `m` ends: `e` or `E`, an optional
/// sign, then at least one digit. Without such digits the exponent is not taken.
pub open spec fn exponent_end(s: Seq<u8>, m: int) -> int {
    if 0 <= m < s.len() && is_exp_mark(s[m]) {
        let q = m + 1 + sign_len(s, m + 1);
        if digit_run(s, q) > 0 {
            q + digit_run(s, q)
        } else {
            m
        }
    } else {
        m
    }
}

/// The length of the longest SVG number at the front of `s[start..]`:
/// `[+-]? (digits ('.' digits*)? | '.' digits) ([eE] [+-]? digits)?`,
/// or `None` when no number starts there.
pub open spec fn number_len(s: Seq<u8>, start: int) -> Option<int> {
    match mantissa_end(s, start + sign_len(s, start)) {
        Some(m) => Some(exponent_end(s, m) - start),
        None => None,
    }
}

proof fn lemma_digit_run_bounds(s: Seq<u8>, i: int)
    requires
        0 <= i <= s.len(),
    ensures
        i + digit_run(s, i) <= s.len(),
        forall|k: int| i <= k < i + digit_run(s, i) ==> is_digit(#[trigger] s[k]),
    decreases s.len() - i,
{
    if i < s.len() && is_digit(s[i]) {
        lemma_digit_run_bounds(s, i + 1);
    }
}

/// A number, when there is one, is non-empty and fits in what is left of `s`.
pub proof fn lemma_number_len_bounds(s: Seq<u8>, start: int)
    requires
        0 <= start <= s.len(),
        number_len(s, start) is Some,
    ensures
        0 < number_len(s, start).unwrap(),
        start + number_len(s, start).unwrap() <= s.len(),
{
    let p = start + sign_len(s, start);
    lemma_digit_run_bounds(s, p);
    let m = mantissa_end(s, p).unwrap();
    if digit_run(s, p) > 0 {
        let q = p + digit_run(s, p);
        if q < s.len() && s[q] == 46 {
            lemma_digit_run_bounds(s, q + 1);
        }
    } else {
        lemma_digit_run_bounds(s, p + 1);
    }
    if 0 <= m < s.len() && is_exp_mark(s[m]) {
        let q = m + 1 + sign_len(s, m + 1);
        lemma_digit_run_bounds(s, q);
    }
}

/// Advances over ASCII digits from `i`.
fn skip_digits(b: &[u8], i: usize) -> (j: usize)
    requires
        i <= b.len(),
    ensures
        j == i + digit_run(b@, i as int),
        j <= b.len(),
{
    let mut j = i;
    proof {
        lemma_digit_run_bounds(b@, i as int);
    }
    while j < b.len() && b[j] >= 48u8 && b[j] <= 57u8
        invariant
            i <= j <= b.len(),
            digit_run(b@, i as int) == (j - i) + digit_run(b@, j as int),
        decreases b.len() - j,
    {
        j += 1;
    }
    j
}

/// The length of the SVG number that starts at `start` in `b` (the longest
/// match of the number grammar), or `None` when none starts there.
pub fn scan_number(b: &[u8], start: usize) -> (r: Option<usize>)
    requires
        start <= b.len(),
    ensures
        r is Some <==> number_len(b@, start as int) is Some,
        r matches Some(n) ==> n == number_len(b@, start as int).unwrap(),
{
    let n = b.len();
    let mut i = start;
    if i < n && (b[i] == 43u8 || b[i] == 45u8) {
        i += 1;
    }
    let p = i;
    i = skip_digits(b, i);
    let has_int = i > p;
    if has_int {
        if i < n && b[i] == 46u8 {
            i += 1;
            i = skip_digits(b, i);
        }
    } else if i < n && b[i] == 46u8 {
        i += 1;
        let fs = i;
        i = skip_digits(b, i);
        if i == fs {
            return None;
        }
    } else {
        return None;
    }
    assert(mantissa_end(b@, p as int) == Some(i as int));
    if i < n && (b[i] == 101u8 || b[i] == 69u8) {
        let save = i;
        i += 1;
        if i < n && (b[i] == 43u8 || b[i] == 45u8) {
            i += 1;
        }
        let es = i;
        i = skip_digits(b, i);
        if i == es {
            i = save;
        }
    }
    assert(exponent_end(b@, mantissa_end(b@, p as int).unwrap()) == i as int);
    Some(i - start)
}

/// The command letters are exactly `AaCcHhLlMmQqSsTtVvZz`: any other byte takes
/// no parameters (`-1`), and each of these takes a count of at most seven.
pub proof fn command_letters_are_the_svg_ones(c: u8)
    ensures
        spec_params_count(c) >= 0 <==> (c == 65 || c == 97 || c == 67 || c == 99 || c == 72
            || c == 104 || c == 76 || c == 108 || c == 77 || c == 109 || c == 81 || c == 113
            || c == 83 || c == 115 || c == 84 || c == 116 || c == 86 || c == 118 || c == 90
            || c == 122),
        spec_params_count(c) < 0 ==> spec_params_count(c) == -1,
        spec_params_count(c) <= 7,
{
}

/// A command takes as many numbers in lower case (relative) as in upper case
/// (absolute).
pub proof fn command_case_does_not_change_count(c: u8)
    requires
        65 <= c <= 90,
    ensures
        spec_params_count(c) == spec_params_count((c + 32) as u8),
{
}

/// A scanned number takes every digit that follows it: the byte right after a
/// number is never a digit.
pub proof fn number_is_not_followed_by_a_digit(s: Seq<u8>, start: int)
    requires
        0 <= start <= s.len(),
        number_len(s, start) is Some,
        start + number_len(s, start).unwrap() < s.len(),
    ensures
        !(48 <= s[start + number_len(s, start).unwrap()] <= 57),
{
    let p = start + sign_len(s, start);
    lemma_digit_run_bounds(s, p);
    lemma_digit_run_stops(s, p);
    if digit_run(s, p) > 0 {
        let q = p + digit_run(s, p);
        if q < s.len() && s[q] == 46 {
            lemma_digit_run_bounds(s, q + 1);
            lemma_digit_run_stops(s, q + 1);
        }
    } else {
        lemma_digit_run_bounds(s, p + 1);
        lemma_digit_run_stops(s, p + 1);
    }
    let m = mantissa_end(s, p).unwrap();
    if 0 <= m < s.len() && is_exp_mark(s[m]) {
        let q = m + 1 + sign_len(s, m + 1);
        lemma_digit_run_bounds(s, q);
        lemma_digit_run_stops(s, q);
    }
}

/// A scanned number is the longest one there: a number without a decimal point
/// or exponent is not followed by a decimal point, and a number without an
/// exponent is not followed by an exponent (`e` or `E`, an optional sign, a digit).
pub proof fn number_is_longest(s: Seq<u8>, start: int)
    requires
        0 <= start <= s.len(),
        number_len(s, start) is Some,
    ensures
        ({
            let end = start + number_len(s, start).unwrap();
            let has = |x: u8| exists|k: int| start <= k < end && s[k] == x;
            &&& (end < s.len() && s[end] == 46) ==> (has(46) || has(101) || has(69))
            &&& (end + 1 < s.len() && (s[end] == 101 || s[end] == 69) && (48 <= s[end + 1] <= 57
                || ((s[end + 1] == 43 || s[end + 1] == 45) && end + 2 < s.len() && 48 <= s[end
                + 2] <= 57))) ==> (has(101) || has(69))
        }),
{
    let p = start + sign_len(s, start);
    lemma_number_len_bounds(s, start);
    lemma_digit_run_bounds(s, p);
    let m = mantissa_end(s, p).unwrap();
    let end = start + number_len(s, start).unwrap();
    let has = |x: u8| exists|k: int| start <= k < end && s[k] == x;
    if digit_run(s, p) > 0 {
        let q = p + digit_run(s, p);
        if q < s.len() && s[q] == 46 {
            lemma_digit_run_bounds(s, q + 1);
            assert(start <= q < end && s[q] == 46);
            assert(has(46));
        }
    } else {
        lemma_digit_run_bounds(s, p + 1);
        assert(start <= p < end && s[p] == 46);
        assert(has(46));
    }
    if 0 <= m < s.len() && is_exp_mark(s[m]) {
        let q = m + 1 + sign_len(s, m + 1);
        lemma_digit_run_bounds(s, q);
        if digit_run(s, q) > 0 {
            assert(start <= m < end && (s[m] == 101 || s[m] == 69));
            assert(has(101) || has(69));
        } else {
            assert(end == m);
            if end + 1 < s.len() && 48 <= s[end + 1] <= 57 {
                assert(sign_len(s, m + 1) == 0);
                assert(digit_run(s, q) > 0);
            }
            if end + 2 < s.len() && (s[end + 1] == 43 || s[end + 1] == 45) && 48 <= s[end + 2] <= 57 {
                assert(sign_len(s, m + 1) == 1);
                assert(digit_run(s, q) > 0);
            }
        }
    }
}

/// Every byte of a number is a digit, a sign, a decimal point or an exponent mark.
pub proof fn number_bytes_are_numeric(s: Seq<u8>, start: int, k: int)
    requires
        0 <= start <= s.len(),
        number_len(s, start) is Some,
        start <= k < start + number_len(s, start).unwrap(),
    ensures
        (48 <= s[k] <= 57) || s[k] == 43 || s[k] == 45 || s[k] == 46 || s[k] == 101 || s[k] == 69,
{
    let p = start + sign_len(s, start);
    lemma_digit_run_bounds(s, p);
    lemma_number_len_bounds(s, start);
    if digit_run(s, p) > 0 {
        let q = p + digit_run(s, p);
        if q < s.len() && s[q] == 46 {
            lemma_digit_run_bounds(s, q + 1);
        }
    } else {
        lemma_digit_run_bounds(s, p + 1);
    }
    let m = mantissa_end(s, p).unwrap();
    if 0 <= m < s.len() && is_exp_mark(s[m]) {
        let q = m + 1 + sign_len(s, m + 1);
        lemma_digit_run_bounds(s, q);
    }
}

/// A run of digits always starts a number that covers at least the whole run.
pub proof fn digits_start_a_number(s: Seq<u8>, start: int, k: int)
    requires
        0 <= start <= k < s.len(),
        forall|j: int| start <= j <= k ==> 48 <= #[trigger] s[j] <= 57,
    ensures
        number_len(s, start) is Some,
        start + number_len(s, start).unwrap() > k,
{
    lemma_digit_run_covers(s, start, k);
}

proof fn lemma_digit_run_covers(s: Seq<u8>, i: int, k: int)
    requires
        0 <= i <= k < s.len(),
        forall|j: int| i <= j <= k ==> 48 <= #[trigger] s[j] <= 57,
    ensures
        i + digit_run(s, i) > k,
    decreases k - i,
{
    if i < k {
        lemma_digit_run_covers(s, i + 1, k);
    }
}

proof fn lemma_digit_run_stops(s: Seq<u8>, i: int)
    requires
        0 <= i <= s.len(),
    ensures
        i + digit_run(s, i) < s.len() ==> !is_digit(s[i + digit_run(s, i)]),
    decreases s.len() - i,
{
    if i < s.len() && is_digit(s[i]) {
        lemma_digit_run_stops(s, i + 1);
    }
}

/// A lexical token of path data. A number is kept as the position and length of
/// its text in the source, so that its value can be read off the source later.
#[derive(Clone, Copy, Debug, PartialEq, Eq, Structural)]
pub enum Tok {
    Cmd(u8),
    Num { start: usize, len: usize },
}

pub open spec fn prepend(p: Seq<Tok>, r: Option<Seq<Tok>>) -> Option<Seq<Tok>> {
    match r {
        Some(t) => Some(p + t),
        None => None,
    }
}

/// The tokens of `s[i..]`: separators are skipped, a command letter is a token of
/// its own, and anything else must be a number; `None` when some byte starts
/// neither.
pub open spec fn spec_tokenize(s: Seq<u8>, i: int) -> Option<Seq<Tok>>
    decreases s.len() - i,
{
    if i < 0 || i >= s.len() {
        Some(seq![])
    } else if is_separator(s[i]) {
        spec_tokenize(s, i + 1)
    } else if is_command(s[i]) {
        prepend(seq![Tok::Cmd(s[i])], spec_tokenize(s, i + 1))
    } else {
        match number_len(s, i) {
            Some(n) => {
                proof {
                    lemma_number_len_bounds(s, i);
                }
                prepend(seq![Tok::Num { start: i as usize, len: n as usize }], spec_tokenize(s, i + n))
            },
            None => None,
        }
    }
}

/// What the tokenizer hands on: commands are command letters, and each number token
/// spans a complete number of `s`, lying at or after `from`.
pub open spec fn tokens_valid_from(s: Seq<u8>, toks: Seq<Tok>, from: int) -> bool {
    forall|k: int|
        0 <= k < toks.len() ==> match #[trigger] toks[k] {
            Tok::Cmd(c) => is_command(c),
            Tok::Num { start, len } => from <= start && start + len <= s.len() && number_len(
                s,
                start as int,
            ) == Some(len as int),
        }
}

pub proof fn lemma_tokenize_valid(s: Seq<u8>, i: int)
    requires
        0 <= i,
        s.len() <= usize::MAX,
        spec_tokenize(s, i) is Some,
    ensures
        tokens_valid_from(s, spec_tokenize(s, i).unwrap(), i),
    decreases s.len() - i,
{
    if i < s.len() {
        if is_separator(s[i]) {
            lemma_tokenize_valid(s, i + 1);
        } else if is_command(s[i]) {
            lemma_tokenize_valid(s, i + 1);
            let t = spec_tokenize(s, i + 1).unwrap();
            assert forall|k: int| 0 <= k < t.len() + 1 implies match #[trigger] (seq![Tok::Cmd(s[i])] + t)[k] {
                Tok::Cmd(c) => is_command(c),
                Tok::Num { start, len } => i <= start && start + len <= s.len() && number_len(s, start as int) == Some(len as int),
            } by {
                if k > 0 {
                    assert((seq![Tok::Cmd(s[i])] + t)[k] == t[k - 1]);
                }
            }
        } else {
            let n = number_len(s, i).unwrap();
            lemma_number_len_bounds(s, i);
            lemma_tokenize_valid(s, i + n);
            let t = spec_tokenize(s, i + n).unwrap();
            let head = seq![Tok::Num { start: i as usize, len: n as usize }];
            assert forall|k: int| 0 <= k < t.len() + 1 implies match #[trigger] (head + t)[k] {
                Tok::Cmd(c) => is_command(c),
                Tok::Num { start, len } => i <= start && start + len <= s.len() && number_len(s, start as int) == Some(len as int),
            } by {
                if k > 0 {
                    assert((head + t)[k] == t[k - 1]);
                }
            }
        }
    }
}

/// Space, tab, carriage return, line feed and comma only separate tokens: the
/// tokens from such a byte on are those from the next byte on.
pub proof fn separators_are_skipped(s: Seq<u8>, i: int)
    requires
        0 <= i < s.len(),
        s[i] == 32 || s[i] == 9 || s[i] == 13 || s[i] == 10 || s[i] == 44,
    ensures
        spec_tokenize(s, i) == spec_tokenize(s, i + 1),
{
}

/// Each of the command letters `AaCcHhLlMmQqSsTtVvZz` is a token of its own, in
/// front of the tokens of the rest.
pub proof fn command_letter_is_a_token(s: Seq<u8>, i: int)
    requires
        0 <= i < s.len(),
        s[i] == 65 || s[i] == 97 || s[i] == 67 || s[i] == 99 || s[i] == 72 || s[i] == 104 || s[i]
            == 76 || s[i] == 108 || s[i] == 77 || s[i] == 109 || s[i] == 81 || s[i] == 113 || s[i]
            == 83 || s[i] == 115 || s[i] == 84 || s[i] == 116 || s[i] == 86 || s[i] == 118 || s[i]
            == 90 || s[i] == 122,
    ensures
        spec_tokenize(s, i) == match spec_tokenize(s, i + 1) {
            Some(t) => Some(seq![Tok::Cmd(s[i])] + t),
            None => None::<Seq<Tok>>,
        },
{
}

/// A byte that is no separator, no command letter, and cannot be part of a number
/// (no digit, sign, decimal point or exponent mark) makes the whole text fail to
/// tokenize.
pub proof fn stray_byte_rejects(s: Seq<u8>, i: int)
    requires
        0 <= i < s.len(),
        !(s[i] == 32 || s[i] == 9 || s[i] == 13 || s[i] == 10 || s[i] == 44),
        !(48 <= s[i] <= 57 || s[i] == 43 || s[i] == 45 || s[i] == 46 || s[i] == 101 || s[i] == 69),
        spec_params_count(s[i]) < 0,
    ensures
        spec_tokenize(s, 0) is None,
{
    lemma_stray_rejects_from(s, 0, i);
}

proof fn lemma_stray_rejects_from(s: Seq<u8>, j: int, i: int)
    requires
        0 <= j <= i < s.len(),
        !(s[i] == 32 || s[i] == 9 || s[i] == 13 || s[i] == 10 || s[i] == 44),
        !(48 <= s[i] <= 57 || s[i] == 43 || s[i] == 45 || s[i] == 46 || s[i] == 101 || s[i] == 69),
        spec_params_count(s[i]) < 0,
    ensures
        spec_tokenize(s, j) is None,
    decreases i - j,
{
    if j == i {
        assert(digit_run(s, i) == 0);
        assert(sign_len(s, i) == 0);
    } else if is_separator(s[j]) || is_command(s[j]) {
        lemma_stray_rejects_from(s, j + 1, i);
    } else {
        match number_len(s, j) {
            Some(n) => {
                lemma_number_len_bounds(s, j);
                if j + n <= i {
                    lemma_stray_rejects_from(s, j + n, i);
                } else {
                    number_bytes_are_numeric(s, j, i);
                }
            },
            None => {},
        }
    }
}

/// Every command token is a byte of the source.
pub proof fn lemma_tokenize_cmds_from_source(s: Seq<u8>, i: int)
    requires
        0 <= i,
        spec_tokenize(s, i) is Some,
    ensures
        forall|k: int|
            0 <= k < spec_tokenize(s, i).unwrap().len() ==> (#[trigger] spec_tokenize(s, i).unwrap()[k]
                matches Tok::Cmd(c) ==> s.contains(c)),
    decreases s.len() - i,
{
    if i < s.len() {
        if is_separator(s[i]) {
            lemma_tokenize_cmds_from_source(s, i + 1);
        } else if is_command(s[i]) {
            lemma_tokenize_cmds_from_source(s, i + 1);
            let t = spec_tokenize(s, i + 1).unwrap();
            let all = seq![Tok::Cmd(s[i])] + t;
            assert(s.contains(s[i]));
            assert forall|k: int| 0 <= k < all.len() implies (#[trigger] all[k] matches Tok::Cmd(c)
                ==> s.contains(c)) by {
                if k > 0 {
                    assert(all[k] == t[k - 1]);
                }
            }
        } else {
            let n = number_len(s, i).unwrap();
            lemma_number_len_bounds(s, i);
            lemma_tokenize_cmds_from_source(s, i + n);
            let t = spec_tokenize(s, i + n).unwrap();
            let all = seq![Tok::Num { start: i as usize, len: n as usize }] + t;
            assert forall|k: int| 0 <= k < all.len() implies (#[trigger] all[k] matches Tok::Cmd(c)
                ==> s.contains(c)) by {
                if k > 0 {
                    assert(all[k] == t[k - 1]);
                }
            }
        }
    }
}

/// Splits path data into tokens; `None` when some byte is neither a separator,
/// a command letter, nor the start of a number.
pub fn tokenize(d: &[u8]) -> (r: Option<Vec<Tok>>)
    ensures
        r is Some <==> spec_tokenize(d@, 0) is Some,
        r matches Some(v) ==> spec_tokenize(d@, 0) == Some(v@),
{
    let n = d.len();
    let mut i: usize = 0;
    let mut toks: Vec<Tok> = Vec::new();
    while i < n
        invariant
            i <= n,
            n == d.len(),
            spec_tokenize(d@, 0) == prepend(toks@, spec_tokenize(d@, i as int)),
        decreases n - i,
    {
        let c = d[i];
        if c == 32u8 || c == 9u8 || c == 13u8 || c == 10u8 || c == 44u8 {
            i += 1;
        } else if params_count(c) >= 0 {
            let ghost before = toks@;
            toks.push(Tok::Cmd(c));
            proof {
                match spec_tokenize(d@, i + 1) {
                    Some(t) => {
                        assert(before + (seq![Tok::Cmd(c)] + t) =~= toks@ + t);
                    },
                    None => {},
                }
            }
            i += 1;
        } else {
            match scan_number(d, i) {
                Some(len) => {
                    proof {
                        lemma_number_len_bounds(d@, i as int);
                    }
                    let ghost before = toks@;
                    let tok = Tok::Num { start: i, len };
                    toks.push(tok);
                    proof {
                        match spec_tokenize(d@, i + len) {
                            Some(t) => {
                                assert(before + (seq![tok] + t) =~= toks@ + t);
                            },
                            None => {},
                        }
                    }
                    i += len;
                },
                None => {
                    return None;
                },
            }
        }
    }
    assert(toks@ + seq![] =~= toks@);
    Some(toks)
}

} // verus!
