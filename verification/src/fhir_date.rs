//! FHIR dates: a year, optionally a month, optionally a day, read from and
//! written to the `YYYY[-MM[-DD]]` text form.

use vstd::prelude::*;

use crate::parser::is_digit_char;

verus! {

/// A date as FHIR writes it: a year alone, a year and a month, or a full
/// year, month and day. A day without a month never arises from parsing and
/// is rejected by the serializer.
#[derive(Debug, PartialEq, Clone, Copy)]
pub struct FHIRDate {
    pub year: u32,
    pub month: Option<u32>,
    pub day: Option<u32>,
}

impl FHIRDate {
    /// A date never carries a day without a month.
    pub open spec fn well_formed(&self) -> bool {
        self.day is Some ==> self.month is Some
    }
}

/// An ASCII digit's numeric value.
pub open spec fn digit_value(c: char) -> nat {
    (c as u32 - '0' as u32) as nat
}

/// Whether `s` consists of digits alone.
pub open spec fn all_digits(s: Seq<char>) -> bool {
    forall|i: int| 0 <= i < s.len() ==> is_digit_char(s[i])
}

/// The numeric value of a run of digits, most significant first.
pub open spec fn digits_value(s: Seq<char>) -> nat
    decreases s.len(),
{
    if s.len() == 0 {
        0
    } else {
        digits_value(s.drop_last()) * 10 + digit_value(s.last())
    }
}

/// The `u32` a piece of text denotes: one optional leading `+`, then at
/// least one digit and nothing else, with a value that fits.
pub open spec fn spec_parse_u32(s: Seq<char>) -> Option<u32> {
    let t = if s.len() > 0 && s[0] == '+' {
        s.skip(1)
    } else {
        s
    };
    if t.len() > 0 && all_digits(t) && digits_value(t) <= u32::MAX {
        Some(digits_value(t) as u32)
    } else {
        None
    }
}

/// The Unicode White_Space characters: the set that `str::trim` removes.
pub open spec fn is_unicode_whitespace_char(c: char) -> bool {
    let u = c as u32;
    ||| (0x9 <= u && u <= 0xD)
    ||| u == 0x20
    ||| u == 0x85
    ||| u == 0xA0
    ||| u == 0x1680
    ||| (0x2000 <= u && u <= 0x200A)
    ||| u == 0x2028
    ||| u == 0x2029
    ||| u == 0x202F
    ||| u == 0x205F
    ||| u == 0x3000
}

fn is_unicode_whitespace(c: char) -> (r: bool)
    ensures
        r == is_unicode_whitespace_char(c),
{
    let u = c as u32;
    (0x9 <= u && u <= 0xD) || u == 0x20 || u == 0x85 || u == 0xA0 || u == 0x1680 || (0x2000 <= u
        && u <= 0x200A) || u == 0x2028 || u == 0x2029 || u == 0x202F || u == 0x205F || u == 0x3000
}

/// How many whitespace characters begin `s`.
pub open spec fn leading_whitespace(s: Seq<char>) -> nat
    decreases s.len(),
{
    if s.len() > 0 && is_unicode_whitespace_char(s[0]) {
        1 + leading_whitespace(s.skip(1))
    } else {
        0
    }
}

/// How many whitespace characters end `s`.
pub open spec fn trailing_whitespace(s: Seq<char>) -> nat
    decreases s.len(),
{
    if s.len() > 0 && is_unicode_whitespace_char(s.last()) {
        1 + trailing_whitespace(s.drop_last())
    } else {
        0
    }
}

/// `s` without its surrounding whitespace.
pub open spec fn spec_trim(s: Seq<char>) -> Seq<char> {
    let u = s.skip(leading_whitespace(s) as int);
    u.take(u.len() - trailing_whitespace(u) as int)
}

/// Whether `s` holds a dash anywhere.
pub open spec fn has_dash(s: Seq<char>) -> bool {
    exists|i: int| 0 <= i < s.len() && s[i] == '-'
}

/// The index of the first dash of `s`, or its length where none occurs.
pub open spec fn first_dash(s: Seq<char>) -> nat
    decreases s.len(),
{
    if s.len() == 0 {
        0
    } else if s[0] == '-' {
        0
    } else {
        1 + first_dash(s.skip(1))
    }
}

/// What `first_dash` points at: no dash lies before it, and it is a dash
/// unless it is the length of `s`.
pub proof fn lemma_first_dash(s: Seq<char>)
    ensures
        first_dash(s) <= s.len(),
        has_dash(s) <==> first_dash(s) < s.len(),
        first_dash(s) < s.len() ==> s[first_dash(s) as int] == '-',
        forall|k: int| 0 <= k < first_dash(s) ==> s[k] != '-',
    decreases s.len(),
{
    if s.len() == 0 {
    } else if s[0] == '-' {
    } else {
        lemma_first_dash(s.skip(1));
        if has_dash(s) {
            let i = choose|i: int| 0 <= i < s.len() && s[i] == '-';
            assert(s.skip(1)[i - 1] == s[i]);
        }
        if has_dash(s.skip(1)) {
            let i = choose|i: int| 0 <= i < s.skip(1).len() && s.skip(1)[i] == '-';
            assert(s[i + 1] == s.skip(1)[i]);
        }
        assert(forall|k: int| 1 <= k < first_dash(s) ==> s[k] == s.skip(1)[k - 1]);
    }
}

/// The date denoted by `s`: after the surrounding whitespace is dropped, a
/// year, a year and month, or a year, month and day, separated by single
/// dashes, each part a `u32` numeral.
pub open spec fn spec_date(s: Seq<char>) -> Option<FHIRDate> {
    let t = spec_trim(s);
    if !has_dash(t) {
        match spec_parse_u32(t) {
            Some(year) => Some(FHIRDate { year, month: None, day: None }),
            None => None,
        }
    } else {
        let i = first_dash(t) as int;
        let head = t.take(i);
        let rest = t.skip(i + 1);
        if !has_dash(rest) {
            match (spec_parse_u32(head), spec_parse_u32(rest)) {
                (Some(year), Some(month)) => Some(
                    FHIRDate { year, month: Some(month), day: None },
                ),
                _ => None,
            }
        } else {
            let j = first_dash(rest) as int;
            let mid = rest.take(j);
            let last = rest.skip(j + 1);
            if has_dash(last) {
                None
            } else {
                match (spec_parse_u32(head), spec_parse_u32(mid), spec_parse_u32(last)) {
                    (Some(year), Some(month), Some(day)) => Some(
                        FHIRDate { year, month: Some(month), day: Some(day) },
                    ),
                    _ => None,
                }
            }
        }
    }
}

fn is_digit(c: char) -> (r: bool)
    ensures
        r == is_digit_char(c),
{
    let u = c as u32;
    '0' as u32 <= u && u <= '9' as u32
}

/// The value of a digit prefix never exceeds the value of the whole run.
proof fn lemma_digits_value_prefix_le(s: Seq<char>, k: int)
    requires
        0 <= k <= s.len(),
        all_digits(s),
    ensures
        digits_value(s.take(k)) <= digits_value(s),
    decreases s.len(),
{
    if k == s.len() {
        assert(s.take(k) =~= s);
    } else {
        assert(forall|i: int| 0 <= i < s.drop_last().len() ==> is_digit_char(s.drop_last()[i]));
        assert(s.take(k) =~= s.drop_last().take(k));
        lemma_digits_value_prefix_le(s.drop_last(), k);
        assert(digits_value(s.drop_last()) * 10 >= digits_value(s.drop_last()));
    }
}

/// Reads a `u32` numeral: an optional `+`, then digits alone, rejecting
/// overflow and anything else.
fn parse_u32_text(s: &str) -> (r: Option<u32>)
    ensures
        r == spec_parse_u32(s@),
{
    let len = s.unicode_len();
    let mut start: usize = 0;
    if len > 0 && s.get_char(0) == '+' {
        start = 1;
    }
    let ghost core = if s@.len() > 0 && s@[0] == '+' {
        s@.skip(1)
    } else {
        s@
    };
    proof {
        assert(core =~= s@.skip(start as int));
    }
    if start == len {
        return None;
    }
    let mut acc: u64 = 0;
    let mut i = start;
    proof {
        assert(s@.subrange(start as int, start as int) =~= Seq::<char>::empty());
    }
    while i < len
        invariant
            start <= i <= len,
            len == s@.len(),
            core == s@.skip(start as int),
            core == (if s@.len() > 0 && s@[0] == '+' {
                s@.skip(1)
            } else {
                s@
            }),
            all_digits(s@.subrange(start as int, i as int)),
            acc as nat == digits_value(s@.subrange(start as int, i as int)),
            acc <= u32::MAX as u64,
        decreases len - i,
    {
        let c = s.get_char(i);
        if !is_digit(c) {
            proof {
                assert(core[i - start] == s@[i as int]);
                assert(!all_digits(core));
            }
            return None;
        }
        let d: u64 = (c as u32 - '0' as u32) as u64;
        acc = acc * 10 + d;
        proof {
            let prefix = s@.subrange(start as int, i as int);
            let extended = s@.subrange(start as int, i as int + 1);
            assert(extended.drop_last() =~= prefix);
            assert(extended.last() == s@[i as int]);
            assert(acc as nat == digits_value(extended));
            assert(forall|j: int| 0 <= j < extended.len() ==> is_digit_char(extended[j]));
        }
        if acc > 0xFFFF_FFFFu64 {
            proof {
                if all_digits(core) {
                    assert(core.take(i + 1 - start) =~= s@.subrange(start as int, i as int + 1));
                    lemma_digits_value_prefix_le(core, i + 1 - start);
                    assert(digits_value(core) > u32::MAX);
                }
            }
            return None;
        }
        i = i + 1;
    }
    proof {
        assert(core =~= s@.subrange(start as int, len as int));
    }
    Some(acc as u32)
}

/// `s` without its surrounding whitespace.
fn trimmed(s: &str) -> (t: &str)
    ensures
        t@ == spec_trim(s@),
{
    let len = s.unicode_len();
    let mut lo: usize = 0;
    proof {
        assert(s@.skip(0) =~= s@);
    }
    while lo < len && is_unicode_whitespace(s.get_char(lo))
        invariant
            lo <= len,
            len == s@.len(),
            leading_whitespace(s@) == lo + leading_whitespace(s@.skip(lo as int)),
        decreases len - lo,
    {
        proof {
            assert(s@.skip(lo as int)[0] == s@[lo as int]);
            assert(s@.skip(lo as int).skip(1) =~= s@.skip(lo as int + 1));
        }
        lo = lo + 1;
    }
    proof {
        assert(leading_whitespace(s@.skip(lo as int)) == 0);
    }
    let ghost u = s@.skip(lo as int);
    let mut hi = len;
    proof {
        assert(u =~= s@.subrange(lo as int, len as int));
    }
    while hi > lo && is_unicode_whitespace(s.get_char(hi - 1))
        invariant
            lo <= hi <= len,
            len == s@.len(),
            u == s@.skip(lo as int),
            leading_whitespace(s@) == lo,
            trailing_whitespace(u) == (len - hi) + trailing_whitespace(
                s@.subrange(lo as int, hi as int),
            ),
        decreases hi,
    {
        proof {
            let cur = s@.subrange(lo as int, hi as int);
            assert(cur.last() == s@[hi - 1]);
            assert(cur.drop_last() =~= s@.subrange(lo as int, hi as int - 1));
        }
        hi = hi - 1;
    }
    proof {
        let cur = s@.subrange(lo as int, hi as int);
        if hi > lo {
            assert(cur.last() == s@[hi - 1]);
        }
        assert(trailing_whitespace(cur) == 0);
        assert(u.take(u.len() - trailing_whitespace(u) as int) =~= cur);
    }
    s.substring_char(lo, hi)
}

/// The position of the first dash of `s`, or `None` where `s` has none.
fn find_dash(s: &str) -> (r: Option<usize>)
    ensures
        match r {
            Some(j) => j < s@.len() && first_dash(s@) == j,
            None => first_dash(s@) == s@.len(),
        },
{
    let len = s.unicode_len();
    let mut i: usize = 0;
    proof {
        assert(s@.skip(0) =~= s@);
    }
    while i < len
        invariant
            i <= len,
            len == s@.len(),
            first_dash(s@) == i + first_dash(s@.skip(i as int)),
        decreases len - i,
    {
        proof {
            assert(s@.skip(i as int)[0] == s@[i as int]);
            assert(s@.skip(i as int).skip(1) =~= s@.skip(i as int + 1));
        }
        if s.get_char(i) == '-' {
            return Some(i);
        }
        i = i + 1;
    }
    None
}

/// Reads a date — `YYYY`, `YYYY-MM`, or `YYYY-MM-DD`, each part a `u32`
/// numeral — ignoring surrounding whitespace. Anything else is rejected.
pub fn deserialize_fhirdate(s: &str) -> (r: Result<FHIRDate, String>)
    ensures
        match r {
            Ok(d) => spec_date(s@) == Some(d) && d.well_formed(),
            Err(m) => spec_date(s@) is None && m@ == "invalid date"@,
        },
{
    let t = trimmed(s);
    let t_len = t.unicode_len();
    proof {
        lemma_first_dash(t@);
    }
    match find_dash(t) {
        None => {
            match parse_u32_text(t) {
                Some(year) => Ok(FHIRDate { year, month: None, day: None }),
                None => Err(String::from_str("invalid date")),
            }
        },
        Some(i) => {
            let head = t.substring_char(0, i);
            let rest = t.substring_char(i + 1, t_len);
            let rest_len = t_len - (i + 1);
            proof {
                assert(head@ =~= t@.take(i as int));
                assert(rest@ =~= t@.skip(i as int + 1));
                lemma_first_dash(rest@);
            }
            match find_dash(rest) {
                None => {
                    match (parse_u32_text(head), parse_u32_text(rest)) {
                        (Some(year), Some(month)) => Ok(
                            FHIRDate { year, month: Some(month), day: None },
                        ),
                        _ => Err(String::from_str("invalid date")),
                    }
                },
                Some(j) => {
                    let mid = rest.substring_char(0, j);
                    let last = rest.substring_char(j + 1, rest_len);
                    proof {
                        assert(mid@ =~= rest@.take(j as int));
                        assert(last@ =~= rest@.skip(j as int + 1));
                        lemma_first_dash(last@);
                    }
                    match find_dash(last) {
                        Some(_) => Err(String::from_str("invalid date")),
                        None => {
                            match (parse_u32_text(head), parse_u32_text(mid), parse_u32_text(
                                last,
                            )) {
                                (Some(year), Some(month), Some(day)) => Ok(
                                    FHIRDate { year, month: Some(month), day: Some(day) },
                                ),
                                _ => Err(String::from_str("invalid date")),
                            }
                        },
                    }
                },
            }
        },
    }
}

/// The digit character for a value below ten.
pub open spec fn digit_char(n: nat) -> char {
    if n == 0 {
        '0'
    } else if n == 1 {
        '1'
    } else if n == 2 {
        '2'
    } else if n == 3 {
        '3'
    } else if n == 4 {
        '4'
    } else if n == 5 {
        '5'
    } else if n == 6 {
        '6'
    } else if n == 7 {
        '7'
    } else if n == 8 {
        '8'
    } else {
        '9'
    }
}

/// The decimal digits of `n`, most significant first, without padding.
pub open spec fn spec_u32_digits(n: nat) -> Seq<char>
    decreases n,
{
    if n < 10 {
        seq![digit_char(n)]
    } else {
        spec_u32_digits(n / 10) + seq![digit_char(n % 10)]
    }
}

/// `s` left-padded with zeros up to `width` characters.
pub open spec fn zero_padded(s: Seq<char>, width: nat) -> Seq<char> {
    if s.len() >= width {
        s
    } else {
        Seq::new((width - s.len()) as nat, |i: int| '0') + s
    }
}

/// The text form of a date: the four-digit year, then a two-digit month and
/// a two-digit day where present, dash-separated, each part padded with
/// leading zeros up to its width.
pub open spec fn spec_date_text(d: FHIRDate) -> Seq<char> {
    let year_text = zero_padded(spec_u32_digits(d.year as nat), 4);
    match (d.month, d.day) {
        (Some(m), Some(day)) => year_text + seq!['-'] + zero_padded(spec_u32_digits(m as nat), 2)
            + seq!['-'] + zero_padded(spec_u32_digits(day as nat), 2),
        (Some(m), None) => year_text + seq!['-'] + zero_padded(spec_u32_digits(m as nat), 2),
        (None, _) => year_text,
    }
}

fn digit_text(d: u32) -> (r: &'static str)
    requires
        d < 10,
    ensures
        r@ == seq![digit_char(d as nat)],
{
    proof {
        reveal_strlit("0");
        reveal_strlit("1");
        reveal_strlit("2");
        reveal_strlit("3");
        reveal_strlit("4");
        reveal_strlit("5");
        reveal_strlit("6");
        reveal_strlit("7");
        reveal_strlit("8");
        reveal_strlit("9");
    }
    let r = if d == 0 {
        "0"
    } else if d == 1 {
        "1"
    } else if d == 2 {
        "2"
    } else if d == 3 {
        "3"
    } else if d == 4 {
        "4"
    } else if d == 5 {
        "5"
    } else if d == 6 {
        "6"
    } else if d == 7 {
        "7"
    } else if d == 8 {
        "8"
    } else {
        "9"
    };
    proof {
        assert(r@ =~= seq![digit_char(d as nat)]);
    }
    r
}

/// The decimal digits of `n`, without padding.
fn decimal_digits(n: u32) -> (r: String)
    ensures
        r@ == spec_u32_digits(n as nat),
    decreases n,
{
    if n < 10 {
        String::from_str(digit_text(n))
    } else {
        let mut r = decimal_digits(n / 10);
        r.append(digit_text(n % 10));
        r
    }
}

/// The decimal digits of `n`, left-padded with zeros up to `width`.
fn padded_decimal(n: u32, width: usize) -> (r: String)
    ensures
        r@ == zero_padded(spec_u32_digits(n as nat), width as nat),
{
    let digits = decimal_digits(n);
    let digit_count = digits.as_str().unicode_len();
    if digit_count >= width {
        return digits;
    }
    let mut pad = String::new();
    proof {
        assert(pad@ =~= Seq::new(0nat, |i: int| '0'));
    }
    let mut k: usize = digit_count;
    while k < width
        invariant
            digit_count <= k <= width,
            pad@ == Seq::new((k - digit_count) as nat, |i: int| '0'),
        decreases width - k,
    {
        pad.append("0");
        proof {
            reveal_strlit("0");
            assert(pad@ =~= Seq::new((k + 1 - digit_count) as nat, |i: int| '0'));
        }
        k = k + 1;
    }
    pad.concat(digits.as_str())
}

/// Writes a date in its `YYYY[-MM[-DD]]` text form.
pub fn serialize_fhirdate(date: &FHIRDate) -> (r: String)
    requires
        date.well_formed(),
    ensures
        r@ == spec_date_text(*date),
{
    let mut out = padded_decimal(date.year, 4);
    proof {
        reveal_strlit("-");
    }
    match date.month {
        None => out,
        Some(m) => {
            out.append("-");
            let month_text = padded_decimal(m, 2);
            out.append(month_text.as_str());
            proof {
                assert("-"@ =~= seq!['-']);
            }
            match date.day {
                None => out,
                Some(day) => {
                    out.append("-");
                    let day_text = padded_decimal(day, 2);
                    out.append(day_text.as_str());
                    out
                },
            }
        },
    }
}

} // verus!
