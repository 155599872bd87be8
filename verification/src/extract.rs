//! Extraction of an episode number from a filename.
//!
//! An ordered list of seven pattern rules is tried against the filename.
//! Each rule, applied on its own, yields the matches a left-to-right,
//! non-overlapping scan finds, every match capturing a run of one or two
//! decimal digits. A match whose captured digits, followed by the letter
//! `P`, occur verbatim anywhere in the filename is discarded: such digits
//! are part of a resolution tag like `1080P`, not an episode number. The
//! first rule with a surviving match decides; the digits of its first
//! surviving match are the episode number. Later rules are deliberately
//! broader fallbacks, so the order of the rules is significant.
//!
//! The rules, in order:
//! 1. a season marker `S` with one or two digits and `E`, or a bare `E`,
//!    followed by the captured digits (letters in either case);
//! 2. captured digits at the very start of the name, followed by a dot;
//! 3. an `EP` or `E` prefix followed by the captured digits;
//! 4. the CJK counter `U+7B2C digits U+8A71` ("episode N");
//! 5. captured digits, optional whitespace, then an opening bracket;
//! 6. a bracketed group, then a second bracketed group holding only the
//!    captured digits;
//! 7. the literal tag `[x_x]`, then later a bracketed `Ep` group with the
//!    captured digits.

use vstd::prelude::*;
use vstd::string::StrSliceExecFns;

verus! {

/// An ASCII decimal digit.
pub open spec fn is_digit(c: char) -> bool {
    48 <= c as u32 <= 57
}

/// The numeric value of an ASCII decimal digit.
pub open spec fn digit_val(c: char) -> int {
    c as u32 - 48
}

/// The letter `E`, in either case.
pub open spec fn is_e(c: char) -> bool {
    c == 'E' || c == 'e'
}

/// The letter `S`, in either case.
pub open spec fn is_s(c: char) -> bool {
    c == 'S' || c == 's'
}

/// The letter `P`, in either case.
pub open spec fn is_p(c: char) -> bool {
    c == 'P' || c == 'p'
}

/// The letter `X`, in either case.
pub open spec fn is_x(c: char) -> bool {
    c == 'x' || c == 'X'
}

/// A whitespace character: the ASCII whitespace controls and space, and
/// the Unicode whitespace code points.
pub open spec fn is_space(c: char) -> bool {
    let u = c as u32;
    ||| u == 32
    ||| 9 <= u <= 13
    ||| u == 0x85
    ||| u == 0xA0
    ||| u == 0x1680
    ||| 0x2000 <= u <= 0x200A
    ||| u == 0x2028
    ||| u == 0x2029
    ||| u == 0x202F
    ||| u == 0x205F
    ||| u == 0x3000
}

/// A rule's match: the scan resumes at `end`, and the captured digits are
/// `cap_len` characters starting at `cap_start`.
pub ghost struct Hit {
    pub end: int,
    pub cap_start: int,
    pub cap_len: int,
}

/// The capture of one or two digits starting at `p`, taking two when a
/// second digit follows. Meaningful when `p` holds a digit.
pub open spec fn cap_at(s: Seq<char>, p: int) -> Hit {
    if p + 1 < s.len() && is_digit(s[p + 1]) {
        Hit { end: p + 2, cap_start: p, cap_len: 2 }
    } else {
        Hit { end: p + 1, cap_start: p, cap_len: 1 }
    }
}

/// Rule 1 at position `i`: `S` with one or two digits and `E`, or a bare
/// `E`, then the captured digits; the longer alternatives are preferred.
pub open spec fn rule1_at(s: Seq<char>, i: int) -> Option<Hit> {
    let n = s.len() as int;
    if 0 <= i < n && is_s(s[i]) && i + 4 < n && is_digit(s[i + 1]) && is_digit(s[i + 2]) && is_e(
        s[i + 3],
    ) && is_digit(s[i + 4]) {
        Some(cap_at(s, i + 4))
    } else if 0 <= i < n && is_s(s[i]) && i + 3 < n && is_digit(s[i + 1]) && is_e(s[i + 2])
        && is_digit(s[i + 3]) {
        Some(cap_at(s, i + 3))
    } else if 0 <= i < n && is_e(s[i]) && i + 1 < n && is_digit(s[i + 1]) {
        Some(cap_at(s, i + 1))
    } else {
        None
    }
}

/// Rule 2 at position `i`: the captured digits at the very start of the
/// name, followed by a dot; two digits are preferred.
pub open spec fn rule2_at(s: Seq<char>, i: int) -> Option<Hit> {
    let n = s.len() as int;
    if i == 0 && 2 < n && is_digit(s[0]) && is_digit(s[1]) && s[2] == '.' {
        Some(Hit { end: 3, cap_start: 0, cap_len: 2 })
    } else if i == 0 && 1 < n && is_digit(s[0]) && s[1] == '.' {
        Some(Hit { end: 2, cap_start: 0, cap_len: 1 })
    } else {
        None
    }
}

/// Rule 3 at position `i`: `EP` or `E`, then the captured digits; `EP` is
/// preferred.
pub open spec fn rule3_at(s: Seq<char>, i: int) -> Option<Hit> {
    let n = s.len() as int;
    if 0 <= i < n && is_e(s[i]) && i + 2 < n && is_p(s[i + 1]) && is_digit(s[i + 2]) {
        Some(cap_at(s, i + 2))
    } else if 0 <= i < n && is_e(s[i]) && i + 1 < n && is_digit(s[i + 1]) {
        Some(cap_at(s, i + 1))
    } else {
        None
    }
}

/// Rule 4 at position `i`: the CJK counter `U+7B2C digits U+8A71`; two
/// digits are preferred.
pub open spec fn rule4_at(s: Seq<char>, i: int) -> Option<Hit> {
    let n = s.len() as int;
    if 0 <= i < n && s[i] == '\u{7B2C}' && i + 3 < n && is_digit(s[i + 1]) && is_digit(s[i + 2])
        && s[i + 3] == '\u{8A71}' {
        Some(Hit { end: i + 4, cap_start: i + 1, cap_len: 2 })
    } else if 0 <= i < n && s[i] == '\u{7B2C}' && i + 2 < n && is_digit(s[i + 1]) && s[i + 2]
        == '\u{8A71}' {
        Some(Hit { end: i + 3, cap_start: i + 1, cap_len: 1 })
    } else {
        None
    }
}

/// The first position at or after `p` that does not hold whitespace.
pub open spec fn ws_end(s: Seq<char>, p: int) -> int
    decreases s.len() - p,
{
    if 0 <= p < s.len() && is_space(s[p]) {
        ws_end(s, p + 1)
    } else {
        p
    }
}

/// Rule 5 at position `i`: the captured digits, optional whitespace, then
/// an opening bracket; two digits are preferred.
pub open spec fn rule5_at(s: Seq<char>, i: int) -> Option<Hit> {
    let n = s.len() as int;
    if 0 <= i < n && is_digit(s[i]) && i + 1 < n && is_digit(s[i + 1]) {
        let q = ws_end(s, i + 2);
        if q < n && s[q] == '[' {
            Some(Hit { end: q + 1, cap_start: i, cap_len: 2 })
        } else {
            None
        }
    } else if 0 <= i < n && is_digit(s[i]) {
        let q = ws_end(s, i + 1);
        if q < n && s[q] == '[' {
            Some(Hit { end: q + 1, cap_start: i, cap_len: 1 })
        } else {
            None
        }
    } else {
        None
    }
}

/// The closing-then-opening brackets and the captured digits of rule 6,
/// anchored at `j`; two digits are preferred.
pub open spec fn rule6_tail(s: Seq<char>, j: int) -> Option<Hit> {
    let n = s.len() as int;
    if 0 <= j && j + 2 < n && s[j] == ']' && s[j + 1] == '[' && is_digit(s[j + 2]) {
        if j + 4 < n && is_digit(s[j + 3]) && s[j + 4] == ']' {
            Some(Hit { end: j + 5, cap_start: j + 2, cap_len: 2 })
        } else if j + 3 < n && s[j + 3] == ']' {
            Some(Hit { end: j + 4, cap_start: j + 2, cap_len: 1 })
        } else {
            None
        }
    } else {
        None
    }
}

/// The shortest expansion of rule 6's inner gap: the first position at or
/// after `j` where the tail matches, the gap crossing no newline.
pub open spec fn rule6_scan(s: Seq<char>, j: int) -> Option<Hit>
    decreases s.len() - j,
{
    if rule6_tail(s, j) is Some {
        rule6_tail(s, j)
    } else if 0 <= j < s.len() && s[j] != '\n' {
        rule6_scan(s, j + 1)
    } else {
        None
    }
}

/// Rule 6 at position `i`: a bracketed group, then a second bracketed
/// group holding only the captured digits.
pub open spec fn rule6_at(s: Seq<char>, i: int) -> Option<Hit> {
    if 0 <= i < s.len() && s[i] == '[' {
        rule6_scan(s, i + 1)
    } else {
        None
    }
}

/// The bracketed `Ep` group of rule 7, anchored at `j`; two digits are
/// preferred.
pub open spec fn rule7_tail(s: Seq<char>, j: int) -> Option<Hit> {
    let n = s.len() as int;
    if 0 <= j && j + 3 < n && s[j] == '[' && is_e(s[j + 1]) && is_p(s[j + 2]) && is_digit(
        s[j + 3],
    ) {
        if j + 5 < n && is_digit(s[j + 4]) && s[j + 5] == ']' {
            Some(Hit { end: j + 6, cap_start: j + 3, cap_len: 2 })
        } else if j + 4 < n && s[j + 4] == ']' {
            Some(Hit { end: j + 5, cap_start: j + 3, cap_len: 1 })
        } else {
            None
        }
    } else {
        None
    }
}

/// The shortest expansion of rule 7's gap: the first position at or after
/// `j` where the `Ep` group matches, the gap crossing no newline.
pub open spec fn rule7_scan(s: Seq<char>, j: int) -> Option<Hit>
    decreases s.len() - j,
{
    if rule7_tail(s, j) is Some {
        rule7_tail(s, j)
    } else if 0 <= j < s.len() && s[j] != '\n' {
        rule7_scan(s, j + 1)
    } else {
        None
    }
}

/// Rule 7 at position `i`: the literal tag `[x_x]` (letters in either
/// case), then later a bracketed `Ep` group with the captured digits.
pub open spec fn rule7_at(s: Seq<char>, i: int) -> Option<Hit> {
    let n = s.len() as int;
    if 0 <= i < n && s[i] == '[' && i + 4 < n && is_x(s[i + 1]) && s[i + 2] == '_' && is_x(
        s[i + 3],
    ) && s[i + 4] == ']' {
        rule7_scan(s, i + 5)
    } else {
        None
    }
}

/// Rule `k` applied at position `i`.
pub open spec fn rule_at(k: int, s: Seq<char>, i: int) -> Option<Hit> {
    if k == 1 {
        rule1_at(s, i)
    } else if k == 2 {
        rule2_at(s, i)
    } else if k == 3 {
        rule3_at(s, i)
    } else if k == 4 {
        rule4_at(s, i)
    } else if k == 5 {
        rule5_at(s, i)
    } else if k == 6 {
        rule6_at(s, i)
    } else if k == 7 {
        rule7_at(s, i)
    } else {
        None
    }
}

/// At position `j`, the filename repeats the captured digits of `h`
/// followed by the letter `P`: the capture coincides with a resolution
/// tag such as `1080P`.
pub open spec fn res_marker_at(s: Seq<char>, h: Hit, j: int) -> bool {
    &&& 0 <= j
    &&& j + h.cap_len < s.len()
    &&& forall|t: int| 0 <= t < h.cap_len ==> #[trigger] s[j + t] == s[h.cap_start + t]
    &&& s[j + h.cap_len] == 'P'
}

/// The captured digits of `h`, followed by the letter `P`, occur verbatim
/// somewhere in the filename; such a match is discarded.
pub open spec fn excluded(s: Seq<char>, h: Hit) -> bool {
    exists|j: int| res_marker_at(s, h, j)
}

/// The first surviving match of rule `k` at or after position `i`: the
/// scan tries each position in turn, resumes after a discarded match, and
/// stops at the first match that is not discarded.
pub open spec fn survivor_from(k: int, s: Seq<char>, i: int) -> Option<Hit>
    decreases s.len() - i,
{
    if i < 0 || i >= s.len() {
        None
    } else {
        match rule_at(k, s, i) {
            Some(h) => if excluded(s, h) {
                if i < h.end <= s.len() {
                    survivor_from(k, s, h.end)
                } else {
                    None
                }
            } else {
                Some(h)
            },
            None => survivor_from(k, s, i + 1),
        }
    }
}

/// The episode number a match stands for: the value of its one or two
/// captured digits.
pub open spec fn hit_value(s: Seq<char>, h: Hit) -> u32 {
    if h.cap_len == 2 {
        (10 * digit_val(s[h.cap_start]) + digit_val(s[h.cap_start + 1])) as u32
    } else {
        digit_val(s[h.cap_start]) as u32
    }
}

/// The result of trying rules `k` through 7 in order: the value of the
/// first rule with a surviving match.
pub open spec fn extract_from(k: int, s: Seq<char>) -> Option<u32>
    decreases 8 - k,
{
    if k < 1 || k > 7 {
        None
    } else {
        match survivor_from(k, s, 0) {
            Some(h) => Some(hit_value(s, h)),
            None => extract_from(k + 1, s),
        }
    }
}

/// The episode number of a filename: the seven rules tried in order, the
/// first surviving match deciding.
pub open spec fn spec_extract(s: Seq<char>) -> Option<u32> {
    extract_from(1, s)
}

/// A rule's match as executable data; mirrors `Hit`.
struct Found {
    end: usize,
    cap_start: usize,
    cap_len: usize,
}

impl Found {
    spec fn hit(self) -> Hit {
        Hit { end: self.end as int, cap_start: self.cap_start as int, cap_len: self.cap_len as int }
    }
}

spec fn found_rel(r: Option<Found>, m: Option<Hit>) -> bool {
    match (r, m) {
        (Some(f), Some(h)) => f.hit() == h,
        (None, None) => true,
        _ => false,
    }
}

fn digit(c: char) -> (r: bool)
    ensures
        r == is_digit(c),
{
    let u = c as u32;
    48 <= u && u <= 57
}

fn letter_e(c: char) -> (r: bool)
    ensures
        r == is_e(c),
{
    c == 'E' || c == 'e'
}

fn letter_p(c: char) -> (r: bool)
    ensures
        r == is_p(c),
{
    c == 'P' || c == 'p'
}

fn space(c: char) -> (r: bool)
    ensures
        r == is_space(c),
{
    let u = c as u32;
    u == 32 || (9 <= u && u <= 13) || u == 0x85 || u == 0xA0 || u == 0x1680 || (0x2000 <= u && u
        <= 0x200A) || u == 0x2028 || u == 0x2029 || u == 0x202F || u == 0x205F || u == 0x3000
}

fn cap_exec(s: &str, n: usize, p: usize) -> (f: Found)
    requires
        n == s@.len(),
        p < n,
    ensures
        f.hit() == cap_at(s@, p as int),
{
    if n - p > 1 && digit(s.get_char(p + 1)) {
        Found { end: p + 2, cap_start: p, cap_len: 2 }
    } else {
        Found { end: p + 1, cap_start: p, cap_len: 1 }
    }
}

fn rule1_exec(s: &str, n: usize, i: usize) -> (r: Option<Found>)
    requires
        n == s@.len(),
        i < n,
    ensures
        found_rel(r, rule1_at(s@, i as int)),
{
    let c = s.get_char(i);
    let anchor_s = c == 'S' || c == 's';
    let anchor_e = c == 'E' || c == 'e';
    if anchor_s && n - i > 4 && digit(s.get_char(i + 1)) && digit(s.get_char(i + 2)) && letter_e(
        s.get_char(i + 3),
    ) && digit(s.get_char(i + 4)) {
        Some(cap_exec(s, n, i + 4))
    } else if anchor_s && n - i > 3 && digit(s.get_char(i + 1)) && letter_e(s.get_char(i + 2))
        && digit(s.get_char(i + 3)) {
        Some(cap_exec(s, n, i + 3))
    } else if anchor_e && n - i > 1 && digit(s.get_char(i + 1)) {
        Some(cap_exec(s, n, i + 1))
    } else {
        None
    }
}

fn rule2_exec(s: &str, n: usize, i: usize) -> (r: Option<Found>)
    requires
        n == s@.len(),
        i < n,
    ensures
        found_rel(r, rule2_at(s@, i as int)),
{
    if i == 0 && n > 2 && digit(s.get_char(0)) && digit(s.get_char(1)) && s.get_char(2) == '.' {
        Some(Found { end: 3, cap_start: 0, cap_len: 2 })
    } else if i == 0 && n > 1 && digit(s.get_char(0)) && s.get_char(1) == '.' {
        Some(Found { end: 2, cap_start: 0, cap_len: 1 })
    } else {
        None
    }
}

fn rule3_exec(s: &str, n: usize, i: usize) -> (r: Option<Found>)
    requires
        n == s@.len(),
        i < n,
    ensures
        found_rel(r, rule3_at(s@, i as int)),
{
    let c = s.get_char(i);
    let anchor_e = c == 'E' || c == 'e';
    if anchor_e && n - i > 2 && letter_p(s.get_char(i + 1)) && digit(s.get_char(i + 2)) {
        Some(cap_exec(s, n, i + 2))
    } else if anchor_e && n - i > 1 && digit(s.get_char(i + 1)) {
        Some(cap_exec(s, n, i + 1))
    } else {
        None
    }
}

fn rule4_exec(s: &str, n: usize, i: usize) -> (r: Option<Found>)
    requires
        n == s@.len(),
        i < n,
    ensures
        found_rel(r, rule4_at(s@, i as int)),
{
    if s.get_char(i) == '\u{7B2C}' {
        if n - i > 3 && digit(s.get_char(i + 1)) && digit(s.get_char(i + 2)) && s.get_char(i + 3)
            == '\u{8A71}' {
            Some(Found { end: i + 4, cap_start: i + 1, cap_len: 2 })
        } else if n - i > 2 && digit(s.get_char(i + 1)) && s.get_char(i + 2) == '\u{8A71}' {
            Some(Found { end: i + 3, cap_start: i + 1, cap_len: 1 })
        } else {
            None
        }
    } else {
        None
    }
}

fn ws_end_exec(s: &str, n: usize, p: usize) -> (q: usize)
    requires
        n == s@.len(),
        p <= n,
    ensures
        q == ws_end(s@, p as int),
        p <= q <= n,
{
    let mut j = p;
    while j < n && space(s.get_char(j))
        invariant
            p <= j <= n,
            n == s@.len(),
            ws_end(s@, p as int) == ws_end(s@, j as int),
        decreases n - j,
    {
        proof {
            assert(ws_end(s@, j as int) == ws_end(s@, j + 1));
        }
        j = j + 1;
    }
    proof {
        assert(ws_end(s@, j as int) == j);
    }
    j
}

fn rule5_exec(s: &str, n: usize, i: usize) -> (r: Option<Found>)
    requires
        n == s@.len(),
        i < n,
    ensures
        found_rel(r, rule5_at(s@, i as int)),
{
    if digit(s.get_char(i)) {
        if n - i > 1 && digit(s.get_char(i + 1)) {
            let q = ws_end_exec(s, n, i + 2);
            if q < n && s.get_char(q) == '[' {
                Some(Found { end: q + 1, cap_start: i, cap_len: 2 })
            } else {
                None
            }
        } else {
            let q = ws_end_exec(s, n, i + 1);
            if q < n && s.get_char(q) == '[' {
                Some(Found { end: q + 1, cap_start: i, cap_len: 1 })
            } else {
                None
            }
        }
    } else {
        None
    }
}

fn rule6_tail_exec(s: &str, n: usize, j: usize) -> (r: Option<Found>)
    requires
        n == s@.len(),
        j <= n,
    ensures
        found_rel(r, rule6_tail(s@, j as int)),
{
    if n - j > 2 && s.get_char(j) == ']' && s.get_char(j + 1) == '[' && digit(s.get_char(j + 2)) {
        if n - j > 4 && digit(s.get_char(j + 3)) && s.get_char(j + 4) == ']' {
            Some(Found { end: j + 5, cap_start: j + 2, cap_len: 2 })
        } else if n - j > 3 && s.get_char(j + 3) == ']' {
            Some(Found { end: j + 4, cap_start: j + 2, cap_len: 1 })
        } else {
            None
        }
    } else {
        None
    }
}

fn rule6_scan_exec(s: &str, n: usize, start: usize) -> (r: Option<Found>)
    requires
        n == s@.len(),
        start <= n,
    ensures
        found_rel(r, rule6_scan(s@, start as int)),
{
    let mut j = start;
    loop
        invariant
            start <= j <= n,
            n == s@.len(),
            rule6_scan(s@, start as int) == rule6_scan(s@, j as int),
        decreases n - j,
    {
        let t = rule6_tail_exec(s, n, j);
        if t.is_some() {
            return t;
        }
        if j < n && s.get_char(j) != '\n' {
            proof {
                assert(rule6_scan(s@, j as int) == rule6_scan(s@, j + 1));
            }
            j = j + 1;
        } else {
            return None;
        }
    }
}

fn rule6_exec(s: &str, n: usize, i: usize) -> (r: Option<Found>)
    requires
        n == s@.len(),
        i < n,
    ensures
        found_rel(r, rule6_at(s@, i as int)),
{
    if s.get_char(i) == '[' {
        rule6_scan_exec(s, n, i + 1)
    } else {
        None
    }
}

fn rule7_tail_exec(s: &str, n: usize, j: usize) -> (r: Option<Found>)
    requires
        n == s@.len(),
        j <= n,
    ensures
        found_rel(r, rule7_tail(s@, j as int)),
{
    if n - j > 3 && s.get_char(j) == '[' && letter_e(s.get_char(j + 1)) && letter_p(
        s.get_char(j + 2),
    ) && digit(s.get_char(j + 3)) {
        if n - j > 5 && digit(s.get_char(j + 4)) && s.get_char(j + 5) == ']' {
            Some(Found { end: j + 6, cap_start: j + 3, cap_len: 2 })
        } else if n - j > 4 && s.get_char(j + 4) == ']' {
            Some(Found { end: j + 5, cap_start: j + 3, cap_len: 1 })
        } else {
            None
        }
    } else {
        None
    }
}

fn rule7_scan_exec(s: &str, n: usize, start: usize) -> (r: Option<Found>)
    requires
        n == s@.len(),
        start <= n,
    ensures
        found_rel(r, rule7_scan(s@, start as int)),
{
    let mut j = start;
    loop
        invariant
            start <= j <= n,
            n == s@.len(),
            rule7_scan(s@, start as int) == rule7_scan(s@, j as int),
        decreases n - j,
    {
        let t = rule7_tail_exec(s, n, j);
        if t.is_some() {
            return t;
        }
        if j < n && s.get_char(j) != '\n' {
            proof {
                assert(rule7_scan(s@, j as int) == rule7_scan(s@, j + 1));
            }
            j = j + 1;
        } else {
            return None;
        }
    }
}

fn rule7_exec(s: &str, n: usize, i: usize) -> (r: Option<Found>)
    requires
        n == s@.len(),
        i < n,
    ensures
        found_rel(r, rule7_at(s@, i as int)),
{
    let c = s.get_char(i);
    if c == '[' && n - i > 4 && (s.get_char(i + 1) == 'x' || s.get_char(i + 1) == 'X')
        && s.get_char(i + 2) == '_' && (s.get_char(i + 3) == 'x' || s.get_char(i + 3) == 'X')
        && s.get_char(i + 4) == ']' {
        rule7_scan_exec(s, n, i + 5)
    } else {
        None
    }
}

fn rule_exec(s: &str, n: usize, k: u8, i: usize) -> (r: Option<Found>)
    requires
        n == s@.len(),
        i < n,
        1 <= k <= 7,
    ensures
        found_rel(r, rule_at(k as int, s@, i as int)),
{
    if k == 1 {
        rule1_exec(s, n, i)
    } else if k == 2 {
        rule2_exec(s, n, i)
    } else if k == 3 {
        rule3_exec(s, n, i)
    } else if k == 4 {
        rule4_exec(s, n, i)
    } else if k == 5 {
        rule5_exec(s, n, i)
    } else if k == 6 {
        rule6_exec(s, n, i)
    } else {
        rule7_exec(s, n, i)
    }
}

/// A well-formed match at or after position `i`: its scan end lies past
/// `i`, and its capture is one or two digits inside the filename.
pub open spec fn hit_wf(s: Seq<char>, i: int, h: Hit) -> bool {
    &&& i < h.end <= s.len()
    &&& 0 <= h.cap_start
    &&& h.cap_start + h.cap_len <= s.len()
    &&& (h.cap_len == 1 || h.cap_len == 2)
    &&& forall|t: int| 0 <= t < h.cap_len ==> is_digit(#[trigger] s[h.cap_start + t])
}

proof fn lemma_ws_end_ge(s: Seq<char>, p: int)
    ensures
        ws_end(s, p) >= p,
    decreases s.len() - p,
{
    if 0 <= p < s.len() && is_space(s[p]) {
        lemma_ws_end_ge(s, p + 1);
    }
}

proof fn lemma_rule6_scan_wf(s: Seq<char>, j: int)
    ensures
        match rule6_scan(s, j) {
            Some(h) => hit_wf(s, j - 1, h),
            None => true,
        },
    decreases s.len() - j,
{
    if rule6_tail(s, j) is Some {
    } else if 0 <= j < s.len() && s[j] != '\n' {
        lemma_rule6_scan_wf(s, j + 1);
    }
}

proof fn lemma_rule7_scan_wf(s: Seq<char>, j: int)
    ensures
        match rule7_scan(s, j) {
            Some(h) => hit_wf(s, j - 1, h),
            None => true,
        },
    decreases s.len() - j,
{
    if rule7_tail(s, j) is Some {
    } else if 0 <= j < s.len() && s[j] != '\n' {
        lemma_rule7_scan_wf(s, j + 1);
    }
}

/// Every match a rule yields at position `i` is well formed.
pub proof fn lemma_rule_at_wf(k: int, s: Seq<char>, i: int)
    ensures
        match rule_at(k, s, i) {
            Some(h) => hit_wf(s, i, h),
            None => true,
        },
{
    if k == 5 {
        lemma_ws_end_ge(s, i + 1);
        lemma_ws_end_ge(s, i + 2);
    } else if k == 6 {
        if 0 <= i < s.len() && s[i] == '[' {
            lemma_rule6_scan_wf(s, i + 1);
        }
    } else if k == 7 {
        lemma_rule7_scan_wf(s, i + 5);
    }
}

/// The first surviving match is well formed and is not discarded: a match
/// whose digits coincide with a resolution tag is never the result.
pub proof fn lemma_survivor_wf(k: int, s: Seq<char>, i: int)
    ensures
        match survivor_from(k, s, i) {
            Some(h) => hit_wf(s, i, h) && !excluded(s, h),
            None => true,
        },
    decreases s.len() - i,
{
    if 0 <= i < s.len() {
        lemma_rule_at_wf(k, s, i);
        match rule_at(k, s, i) {
            Some(h) => {
                if excluded(s, h) && i < h.end <= s.len() {
                    lemma_survivor_wf(k, s, h.end);
                }
            },
            None => {
                lemma_survivor_wf(k, s, i + 1);
            },
        }
    }
}

fn is_excluded_exec(s: &str, n: usize, f: &Found) -> (r: bool)
    requires
        n == s@.len(),
        f.cap_start + f.cap_len <= n,
        1 <= f.cap_len <= 2,
    ensures
        r == excluded(s@, f.hit()),
{
    let mut j: usize = 0;
    while n - j > f.cap_len
        invariant
            j <= n,
            n == s@.len(),
            f.cap_start + f.cap_len <= n,
            1 <= f.cap_len <= 2,
            forall|jj: int| 0 <= jj < j ==> !res_marker_at(s@, f.hit(), jj),
        decreases n - j,
    {
        let d0 = s.get_char(j) == s.get_char(f.cap_start);
        let d1 = if f.cap_len == 2 {
            s.get_char(j + 1) == s.get_char(f.cap_start + 1)
        } else {
            true
        };
        let pp = s.get_char(j + f.cap_len) == 'P';
        if d0 && d1 && pp {
            proof {
                assert forall|t: int|
                    0 <= t < f.cap_len implies #[trigger] s@[j + t] == s@[f.cap_start + t] by {
                    if t == 0 {
                        assert(s@[j as int] == s@[f.cap_start as int]);
                    } else {
                        assert(t == 1);
                        assert(s@[j + 1] == s@[f.cap_start + 1]);
                    }
                }
                assert(res_marker_at(s@, f.hit(), j as int));
            }
            return true;
        }
        proof {
            assert(!res_marker_at(s@, f.hit(), j as int)) by {
                if res_marker_at(s@, f.hit(), j as int) {
                    assert(s@[j + 0] == s@[f.cap_start + 0]);
                    if f.cap_len == 2 {
                        assert(s@[j + 1] == s@[f.cap_start + 1]);
                    }
                    assert(s@[j + f.cap_len] == 'P');
                    assert(false);
                }
            };
        }
        j = j + 1;
    }
    proof {
        assert(!excluded(s@, f.hit())) by {
            if excluded(s@, f.hit()) {
                let jj = choose|jj: int| res_marker_at(s@, f.hit(), jj);
                assert(jj + f.cap_len < n);
                assert(jj < j);
                assert(false);
            }
        }
    }
    false
}

fn find_survivor(s: &str, n: usize, k: u8) -> (r: Option<Found>)
    requires
        n == s@.len(),
        1 <= k <= 7,
    ensures
        found_rel(r, survivor_from(k as int, s@, 0)),
{
    let mut i: usize = 0;
    loop
        invariant
            i <= n,
            n == s@.len(),
            1 <= k <= 7,
            survivor_from(k as int, s@, 0) == survivor_from(k as int, s@, i as int),
        decreases n - i,
    {
        if i >= n {
            return None;
        }
        let m = rule_exec(s, n, k, i);
        match m {
            None => {
                proof {
                    assert(survivor_from(k as int, s@, i as int) == survivor_from(
                        k as int,
                        s@,
                        i + 1,
                    ));
                }
                i = i + 1;
            },
            Some(f) => {
                proof {
                    lemma_rule_at_wf(k as int, s@, i as int);
                }
                if is_excluded_exec(s, n, &f) {
                    proof {
                        assert(survivor_from(k as int, s@, i as int) == survivor_from(
                            k as int,
                            s@,
                            f.end as int,
                        ));
                    }
                    i = f.end;
                } else {
                    return Some(f);
                }
            },
        }
    }
}

fn parse_found(s: &str, n: usize, f: &Found) -> (v: u32)
    requires
        n == s@.len(),
        f.cap_start + f.cap_len <= n,
        1 <= f.cap_len <= 2,
        forall|t: int| 0 <= t < f.cap_len ==> is_digit(#[trigger] s@[f.cap_start + t]),
    ensures
        v == hit_value(s@, f.hit()),
{
    proof {
        assert(is_digit(s@[f.cap_start + 0]));
    }
    let d0 = s.get_char(f.cap_start) as u32 - 48;
    if f.cap_len == 2 {
        proof {
            assert(is_digit(s@[f.cap_start + 1]));
        }
        let d1 = s.get_char(f.cap_start + 1) as u32 - 48;
        10 * d0 + d1
    } else {
        d0
    }
}

/// The episode number inferred from a filename, if any: the seven pattern
/// rules are tried in order, matches whose digits coincide with a
/// resolution tag are discarded, and the first surviving match decides.
pub fn extract_episode_number(filename: &str) -> (r: Option<u32>)
    ensures
        r == spec_extract(filename@),
{
    let n = filename.unicode_len();
    let mut k: u8 = 1;
    while k <= 7
        invariant
            1 <= k <= 8,
            n == filename@.len(),
            spec_extract(filename@) == extract_from(k as int, filename@),
        decreases 8 - k,
    {
        let m = find_survivor(filename, n, k);
        if let Some(f) = m {
            proof {
                lemma_survivor_wf(k as int, filename@, 0);
            }
            let v = parse_found(filename, n, &f);
            return Some(v);
        }
        proof {
            assert(extract_from(k as int, filename@) == extract_from(k + 1, filename@));
        }
        k = k + 1;
    }
    proof {
        assert(extract_from(8, filename@) is None);
    }
    None
}

/// Positions `a` up to `b` yield no match of rule `k`: the scan for a
/// surviving match passes over them unchanged.
pub proof fn lemma_no_match_scan(k: int, s: Seq<char>, a: int, b: int)
    requires
        0 <= a <= b,
        forall|j: int| a <= j < b ==> #[trigger] rule_at(k, s, j) is None,
    ensures
        survivor_from(k, s, a) == survivor_from(k, s, b),
    decreases b - a,
{
    if a < b {
        lemma_no_match_scan(k, s, a + 1, b);
    }
}

/// A season marker `S<dd>E<dd>` decides the extraction: where the two
/// digits after the `E` are captured at the first match of the first rule
/// and no resolution tag repeats them, the episode number is their value.
pub proof fn lemma_season_episode(s: Seq<char>, i: int)
    requires
        0 <= i,
        i + 5 < s.len(),
        is_s(s[i]),
        is_digit(s[i + 1]),
        is_digit(s[i + 2]),
        is_e(s[i + 3]),
        is_digit(s[i + 4]),
        is_digit(s[i + 5]),
        !excluded(s, Hit { end: i + 6, cap_start: i + 4, cap_len: 2 }),
        forall|j: int| 0 <= j < i ==> #[trigger] rule1_at(s, j) is None,
    ensures
        spec_extract(s) == Some((10 * digit_val(s[i + 4]) + digit_val(s[i + 5])) as u32),
{
    let h = Hit { end: i + 6, cap_start: i + 4, cap_len: 2 };
    assert(rule1_at(s, i) == Some(h));
    assert forall|j: int| 0 <= j < i implies #[trigger] rule_at(1, s, j) is None by {
        assert(rule_at(1, s, j) == rule1_at(s, j));
    }
    lemma_no_match_scan(1, s, 0, i);
    assert(survivor_from(1, s, i) == Some(h));
    assert(spec_extract(s) == Some(hit_value(s, h)));
}

/// A match whose captured digits coincide with a resolution tag is
/// discarded: the scan resumes after it as if it were not there.
pub proof fn lemma_resolution_marker_skipped(k: int, s: Seq<char>, i: int)
    requires
        0 <= i < s.len(),
        rule_at(k, s, i) is Some,
        excluded(s, rule_at(k, s, i)->Some_0),
    ensures
        survivor_from(k, s, i) == survivor_from(k, s, rule_at(k, s, i)->Some_0.end),
{
    lemma_rule_at_wf(k, s, i);
}

/// A rule without a surviving match decides nothing: the extraction falls
/// through to the next rule, and past the last rule the result is empty.
pub proof fn lemma_rule_falls_through(k: int, s: Seq<char>)
    requires
        1 <= k <= 7,
        survivor_from(k, s, 0) is None,
    ensures
        extract_from(k, s) == extract_from(k + 1, s),
{
}

/// The extraction never returns the digits of a discarded match: whatever
/// a rule's scan yields, its capture does not coincide with a resolution
/// tag.
pub proof fn lemma_excluded_never_chosen(k: int, s: Seq<char>, i: int)
    requires
        survivor_from(k, s, i) is Some,
    ensures
        !excluded(s, survivor_from(k, s, i)->Some_0),
{
    lemma_survivor_wf(k, s, i);
}

} // verus!
