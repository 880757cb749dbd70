//! The template grammar and its parser.
//!
//! A template is a sequence of fragments. A literal run is a maximal sequence
//! of ordinary characters and escapes (`\\`, `\{`, `\}`); a tag is `{{`,
//! optional whitespace, one identifier, optional whitespace, `}}`. The parser
//! must consume the whole input; anything else is a parse failure.

use vstd::prelude::*;

use crate::document::{spec_saturate, DocumentTemplate, Partial, SpecPartial};

verus! {

/// The characters with a syntactic role: inside literal text each must be
/// escaped with a backslash to stand for itself.
pub open spec fn is_special_char(c: char) -> bool {
    c == '\\' || c == '{' || c == '}'
}

/// The whitespace accepted around the identifier inside a tag.
pub open spec fn is_whitespace_char(c: char) -> bool {
    c == ' ' || c == '\t' || c == '\r' || c == '\n'
}

/// An ASCII letter.
pub open spec fn is_letter_char(c: char) -> bool {
    ('a' as u32 <= c as u32 && c as u32 <= 'z' as u32) || ('A' as u32 <= c as u32 && c as u32
        <= 'Z' as u32)
}

/// An ASCII digit.
pub open spec fn is_digit_char(c: char) -> bool {
    '0' as u32 <= c as u32 && c as u32 <= '9' as u32
}

/// The first character of an identifier: a letter or an underscore.
pub open spec fn is_identifier_start_char(c: char) -> bool {
    is_letter_char(c) || c == '_'
}

/// Any later character of an identifier.
pub open spec fn is_identifier_char(c: char) -> bool {
    is_letter_char(c) || is_digit_char(c) || c == '_'
}

fn is_whitespace(c: char) -> (r: bool)
    ensures
        r == is_whitespace_char(c),
{
    c == ' ' || c == '\t' || c == '\r' || c == '\n'
}

fn is_identifier_start(c: char) -> (r: bool)
    ensures
        r == is_identifier_start_char(c),
{
    let u = c as u32;
    ('a' as u32 <= u && u <= 'z' as u32) || ('A' as u32 <= u && u <= 'Z' as u32) || c == '_'
}

fn is_identifier_part(c: char) -> (r: bool)
    ensures
        r == is_identifier_char(c),
{
    let u = c as u32;
    ('a' as u32 <= u && u <= 'z' as u32) || ('A' as u32 <= u && u <= 'Z' as u32) || ('0' as u32 <= u
        && u <= '9' as u32) || c == '_'
}

/// The decoded text and consumed length of the maximal literal run at the
/// head of `s`. An ordinary character stands for itself and an escape stands
/// for its special character; an unescaped brace merely ends the run, while a
/// backslash that does not begin a valid escape poisons it.
pub open spec fn spec_literal(s: Seq<char>) -> Option<(Seq<char>, nat)>
    decreases s.len(),
{
    if s.len() == 0 {
        Some((Seq::empty(), 0))
    } else if s[0] == '{' || s[0] == '}' {
        Some((Seq::empty(), 0))
    } else if s[0] == '\\' {
        if s.len() >= 2 && is_special_char(s[1]) {
            match spec_literal(s.skip(2)) {
                Some((text, n)) => Some((seq![s[1]] + text, n + 2)),
                None => None,
            }
        } else {
            None
        }
    } else {
        match spec_literal(s.skip(1)) {
            Some((text, n)) => Some((seq![s[0]] + text, n + 1)),
            None => None,
        }
    }
}

/// How many whitespace characters stand at the head of `s`.
pub open spec fn whitespace_run(s: Seq<char>) -> nat
    decreases s.len(),
{
    if s.len() > 0 && is_whitespace_char(s[0]) {
        1 + whitespace_run(s.skip(1))
    } else {
        0
    }
}

/// How many identifier characters follow the identifier's first character.
pub open spec fn identifier_tail_run(s: Seq<char>) -> nat
    decreases s.len(),
{
    if s.len() > 0 && is_identifier_char(s[0]) {
        1 + identifier_tail_run(s.skip(1))
    } else {
        0
    }
}

/// The length of the identifier at the head of `s`: zero when `s` does not
/// begin with a letter or an underscore.
pub open spec fn identifier_run(s: Seq<char>) -> nat {
    if s.len() > 0 && is_identifier_start_char(s[0]) {
        1 + identifier_tail_run(s.skip(1))
    } else {
        0
    }
}

/// The identifier and consumed length of the tag at the head of `s`, or
/// `None` where no well-formed tag starts there. Whitespace around the
/// identifier is consumed but stripped from it; an empty identifier, a
/// second identifier, or a missing `}}` all fail.
pub open spec fn spec_tag(s: Seq<char>) -> Option<(Seq<char>, nat)> {
    if s.len() < 2 || s[0] != '{' || s[1] != '{' {
        None
    } else {
        let id_from = 2 + whitespace_run(s.skip(2));
        let id_len = identifier_run(s.skip(id_from as int));
        if id_len == 0 {
            None
        } else {
            let id_to = id_from + id_len;
            let close = id_to + whitespace_run(s.skip(id_to as int));
            if close + 2 <= s.len() && s[close as int] == '}' && s[close as int + 1] == '}' {
                Some((s.subrange(id_from as int, id_to as int), (close + 2) as nat))
            } else {
                None
            }
        }
    }
}

/// The first fragment at the head of `s` with its consumed length: a tag
/// where `s` starts with `{`, otherwise a non-empty literal run. `None` is a
/// parse failure at the head, including a bare `}` and the end of input.
pub open spec fn spec_fragment(s: Seq<char>) -> Option<(SpecPartial, nat)> {
    if s.len() == 0 {
        None
    } else if s[0] == '{' {
        match spec_tag(s) {
            Some((id, n)) => Some((SpecPartial::Tag(id), n)),
            None => None,
        }
    } else if s[0] == '}' {
        None
    } else {
        match spec_literal(s) {
            Some((text, n)) => Some((SpecPartial::Literal(text), n)),
            None => None,
        }
    }
}

/// A literal run never consumes more characters than the input holds.
pub proof fn lemma_literal_len(s: Seq<char>)
    ensures
        spec_literal(s) matches Some((text, n)) ==> n <= s.len(),
    decreases s.len(),
{
    if s.len() == 0 || s[0] == '{' || s[0] == '}' {
    } else if s[0] == '\\' {
        if s.len() >= 2 && is_special_char(s[1]) {
            lemma_literal_len(s.skip(2));
        }
    } else {
        lemma_literal_len(s.skip(1));
    }
}

/// A fragment consumes at least one character and at most the whole input.
pub proof fn lemma_fragment_len(s: Seq<char>)
    ensures
        spec_fragment(s) matches Some((p, n)) ==> 1 <= n <= s.len(),
{
    if s.len() > 0 && s[0] != '{' && s[0] != '}' {
        lemma_literal_len(s);
    }
}

/// The parse of a whole document: the fragments of `s` in order, where the
/// grammar consumes every character, or `None` where `s` does not match.
pub open spec fn spec_parse(s: Seq<char>) -> Option<Seq<SpecPartial>>
    decreases s.len(),
    via spec_parse_decreases
{
    if s.len() == 0 {
        Some(Seq::empty())
    } else {
        match spec_fragment(s) {
            Some((p, n)) => match spec_parse(s.skip(n as int)) {
                Some(rest) => Some(seq![p] + rest),
                None => None,
            },
            None => None,
        }
    }
}

#[via_fn]
proof fn spec_parse_decreases(s: Seq<char>) {
    lemma_fragment_len(s);
}

/// Where scanning a literal run stops, relative to its start: at the first
/// brace or the end of input for a complete run, and at the offending
/// backslash for a failing one.
pub open spec fn literal_scan_end(s: Seq<char>) -> nat
    decreases s.len(),
{
    if s.len() == 0 {
        0
    } else if s[0] == '{' || s[0] == '}' {
        0
    } else if s[0] == '\\' {
        if s.len() >= 2 && is_special_char(s[1]) {
            2 + literal_scan_end(s.skip(2))
        } else {
            0
        }
    } else {
        1 + literal_scan_end(s.skip(1))
    }
}

/// The offset and cause reported when no tag parses at the head of `s`.
pub open spec fn tag_failure(s: Seq<char>) -> (nat, ParseErrorKind) {
    if s.len() < 2 {
        (0, ParseErrorKind::UnterminatedTag)
    } else if s[0] != '{' || s[1] != '{' {
        (0, ParseErrorKind::BareSpecialCharacter)
    } else {
        let id_from = 2 + whitespace_run(s.skip(2));
        if id_from == s.len() {
            (id_from, ParseErrorKind::UnterminatedTag)
        } else if !is_identifier_start_char(s[id_from as int]) {
            if s[id_from as int] == '}' {
                (id_from, ParseErrorKind::EmptyIdentifier)
            } else {
                (id_from, ParseErrorKind::InvalidIdentifier)
            }
        } else {
            let id_to = id_from + identifier_run(s.skip(id_from as int));
            let close = id_to + whitespace_run(s.skip(id_to as int));
            if s.len() - close < 2 {
                (close, ParseErrorKind::UnterminatedTag)
            } else {
                (close, ParseErrorKind::InvalidIdentifier)
            }
        }
    }
}

/// The offset and cause reported when no fragment parses at the head of `s`:
/// a tag diagnosis after a `{`, otherwise a bare special character where the
/// literal run stops.
pub open spec fn fragment_failure(s: Seq<char>) -> (nat, ParseErrorKind) {
    if s.len() > 0 && s[0] == '{' {
        tag_failure(s)
    } else {
        (literal_scan_end(s), ParseErrorKind::BareSpecialCharacter)
    }
}

/// The offset and cause reported when `s` does not parse as a document: the
/// diagnosis of the first fragment that fails.
pub open spec fn parse_failure(s: Seq<char>) -> (nat, ParseErrorKind)
    decreases s.len(),
    via parse_failure_decreases
{
    if s.len() == 0 {
        (0, ParseErrorKind::BareSpecialCharacter)
    } else {
        match spec_fragment(s) {
            Some((p, n)) => {
                let rest = parse_failure(s.skip(n as int));
                ((n + rest.0) as nat, rest.1)
            },
            None => fragment_failure(s),
        }
    }
}

#[via_fn]
proof fn parse_failure_decreases(s: Seq<char>) {
    lemma_fragment_len(s);
}

/// Text free of the three special characters is one maximal literal run
/// covering all of it.
pub proof fn lemma_plain_literal(s: Seq<char>)
    requires
        forall|i: int| 0 <= i < s.len() ==> !is_special_char(s[i]),
    ensures
        spec_literal(s) == Some((s, s.len())),
    decreases s.len(),
{
    if s.len() == 0 {
        assert(s =~= Seq::<char>::empty());
    } else {
        assert(!is_special_char(s[0]));
        assert(forall|i: int| 0 <= i < s.skip(1).len() ==> !is_special_char(s.skip(1)[i]));
        lemma_plain_literal(s.skip(1));
        assert(seq![s[0]] + s.skip(1) =~= s);
    }
}

/// Parsing any text free of the three special characters succeeds, the
/// template holds no tag, and saturating it against the empty pair
/// collection returns the text unchanged.
pub proof fn lemma_literal_round_trip(s: Seq<char>)
    requires
        forall|i: int| 0 <= i < s.len() ==> !is_special_char(s[i]),
    ensures
        spec_parse(s) is Some,
        spec_saturate(spec_parse(s)->Some_0, Seq::empty()) == Ok::<Seq<char>, Seq<char>>(s),
{
    lemma_plain_literal(s);
    if s.len() == 0 {
        assert(spec_parse(s) == Some(Seq::<SpecPartial>::empty()));
        assert(s =~= Seq::<char>::empty());
    } else {
        assert(!is_special_char(s[0]));
        assert(s.skip(s.len() as int) =~= Seq::<char>::empty());
        assert(spec_parse(s.skip(s.len() as int)) == Some(Seq::<SpecPartial>::empty()));
        assert(spec_fragment(s) == Some((SpecPartial::Literal(s), s.len())));
        let ps = spec_parse(s)->Some_0;
        assert(ps == seq![SpecPartial::Literal(s)] + Seq::<SpecPartial>::empty());
        assert(ps =~= seq![SpecPartial::Literal(s)]);
        assert(ps.skip(1) =~= Seq::<SpecPartial>::empty());
        assert(spec_saturate(ps.skip(1), Seq::empty()) == Ok::<Seq<char>, Seq<char>>(
            Seq::<char>::empty(),
        ));
        assert(spec_saturate(ps, Seq::empty()) == Ok::<Seq<char>, Seq<char>>(
            s + Seq::<char>::empty(),
        ));
        assert(s + Seq::<char>::empty() =~= s);
    }
}

/// A parse failure: the character offset where it was detected and its cause.
#[derive(Debug, PartialEq)]
pub struct ParseError {
    pub position: usize,
    pub kind: ParseErrorKind,
}

/// The cause of a parse failure.
#[derive(Debug, PartialEq, Clone, Copy)]
pub enum ParseErrorKind {
    /// A `\`, `{`, or `}` stands bare where literal text or a tag may begin.
    BareSpecialCharacter,
    /// A `{{` was opened and the input ends before its matching `}}`.
    UnterminatedTag,
    /// A tag holds no identifier at all.
    EmptyIdentifier,
    /// A tag holds something other than one well-formed identifier.
    InvalidIdentifier,
}

/// Parses the maximal literal run of `s` beginning at `from`, decoding
/// escapes; fails where the run is empty or where a backslash does not begin
/// a valid escape.
pub fn string_literal(s: &str, from: usize) -> (r: Result<(Partial, usize), ParseError>)
    requires
        from <= s@.len(),
    ensures
        match r {
            Ok((p, end)) => {
                &&& from < end <= s@.len()
                &&& p@ matches SpecPartial::Literal(text) && spec_literal(s@.skip(from as int))
                    == Some((text, (end - from) as nat))
            },
            Err(e) => {
                &&& !(spec_literal(s@.skip(from as int)) matches Some((text, n)) && n > 0)
                &&& from <= e.position <= s@.len()
                &&& e.position == from + literal_scan_end(s@.skip(from as int))
                &&& e.kind == ParseErrorKind::BareSpecialCharacter
            },
        },
{
    let ghost tail = s@.skip(from as int);
    let len = s.unicode_len();
    let mut text = String::new();
    let mut i = from;
    let mut stopped = false;
    proof {
        if let Some((t, n)) = spec_literal(tail) {
            assert(text@ + t =~= t);
        }
    }
    while i < len && !stopped
        invariant
            from <= i <= len,
            len == s@.len(),
            tail == s@.skip(from as int),
            stopped ==> i < len && (s@[i as int] == '{' || s@[i as int] == '}'),
            literal_scan_end(tail) == (i - from) + literal_scan_end(s@.skip(i as int)),
            match spec_literal(s@.skip(i as int)) {
                Some((t, n)) => spec_literal(tail) == Some((text@ + t, (i - from + n) as nat)),
                None => spec_literal(tail) is None,
            },
        decreases len - i, (if stopped { 0int } else { 1int }),
    {
        let c = s.get_char(i);
        if c == '{' || c == '}' {
            stopped = true;
        } else if c == '\\' {
            let mut escaped = false;
            if i + 1 < len {
                let c2 = s.get_char(i + 1);
                if c2 == '\\' || c2 == '{' || c2 == '}' {
                    escaped = true;
                    let ghost text_before = text@;
                    text.append(s.substring_char(i + 1, i + 2));
                    proof {
                        assert(s@.subrange(i as int + 1, i as int + 2) =~= seq![s@[i as int + 1]]);
                        assert(s@.skip(i as int).skip(2) =~= s@.skip(i as int + 2));
                        assert(s@.skip(i as int)[0] == s@[i as int]);
                        assert(s@.skip(i as int)[1] == s@[i as int + 1]);
                        if let Some((t, n)) = spec_literal(s@.skip(i as int + 2)) {
                            assert(text_before + (seq![s@[i as int + 1]] + t) =~= text@ + t);
                        }
                    }
                    i = i + 2;
                }
            }
            if !escaped {
                proof {
                    assert(s@.skip(i as int)[0] == s@[i as int]);
                    if i + 1 < len {
                        assert(s@.skip(i as int)[1] == s@[i as int + 1]);
                    }
                    assert(spec_literal(s@.skip(i as int)) is None);
                }
                return Err(
                    ParseError { position: i, kind: ParseErrorKind::BareSpecialCharacter },
                );
            }
        } else {
            let ghost text_before = text@;
            text.append(s.substring_char(i, i + 1));
            proof {
                assert(s@.subrange(i as int, i as int + 1) =~= seq![s@[i as int]]);
                assert(s@.skip(i as int).skip(1) =~= s@.skip(i as int + 1));
                assert(s@.skip(i as int)[0] == s@[i as int]);
                if let Some((t, n)) = spec_literal(s@.skip(i as int + 1)) {
                    assert(text_before + (seq![s@[i as int]] + t) =~= text@ + t);
                }
            }
            i = i + 1;
        }
    }
    proof {
        assert(spec_literal(s@.skip(i as int)) == Some((Seq::<char>::empty(), 0nat)));
        assert(text@ + Seq::<char>::empty() =~= text@);
        assert(spec_literal(tail) == Some((text@, (i - from) as nat)));
    }
    if i == from {
        return Err(ParseError { position: from, kind: ParseErrorKind::BareSpecialCharacter });
    }
    Ok((Partial::StringLiteral(text), i))
}

/// Parses the tag at `from`: `{{`, optional whitespace, one identifier,
/// optional whitespace, `}}`.
pub fn tag(s: &str, from: usize) -> (r: Result<(Partial, usize), ParseError>)
    requires
        from <= s@.len(),
    ensures
        match r {
            Ok((p, end)) => {
                &&& from < end <= s@.len()
                &&& p@ matches SpecPartial::Tag(id) && spec_tag(s@.skip(from as int)) == Some(
                    (id, (end - from) as nat),
                )
            },
            Err(e) => {
                &&& spec_tag(s@.skip(from as int)) is None
                &&& from <= e.position <= s@.len()
                &&& e.position == from + tag_failure(s@.skip(from as int)).0
                &&& e.kind == tag_failure(s@.skip(from as int)).1
            },
        },
{
    let ghost tail = s@.skip(from as int);
    let len = s.unicode_len();
    if len - from < 2 {
        return Err(ParseError { position: from, kind: ParseErrorKind::UnterminatedTag });
    }
    let c0 = s.get_char(from);
    let c1 = s.get_char(from + 1);
    proof {
        assert(tail[0] == s@[from as int]);
        assert(tail[1] == s@[from as int + 1]);
    }
    if c0 != '{' || c1 != '{' {
        return Err(ParseError { position: from, kind: ParseErrorKind::BareSpecialCharacter });
    }

    // Leading whitespace inside the delimiters.
    let mut i = from + 2;
    proof {
        assert(tail.skip(2) =~= s@.skip(from as int + 2));
    }
    while i < len && is_whitespace(s.get_char(i))
        invariant
            from + 2 <= i <= len,
            len == s@.len(),
            tail == s@.skip(from as int),
            whitespace_run(tail.skip(2)) == (i - from - 2) + whitespace_run(s@.skip(i as int)),
        decreases len - i,
    {
        proof {
            assert(s@.skip(i as int)[0] == s@[i as int]);
            assert(s@.skip(i as int).skip(1) =~= s@.skip(i as int + 1));
        }
        i = i + 1;
    }
    proof {
        assert(whitespace_run(s@.skip(i as int)) == 0);
        assert(tail.skip((i - from) as int) =~= s@.skip(i as int));
    }
    let ghost id_from = (i - from) as int;

    // The identifier.
    if i == len {
        return Err(ParseError { position: i, kind: ParseErrorKind::UnterminatedTag });
    }
    let c = s.get_char(i);
    proof {
        assert(s@.skip(i as int)[0] == s@[i as int]);
    }
    if !is_identifier_start(c) {
        let kind = if c == '}' {
            ParseErrorKind::EmptyIdentifier
        } else {
            ParseErrorKind::InvalidIdentifier
        };
        return Err(ParseError { position: i, kind });
    }
    let id_start = i;
    i = i + 1;
    proof {
        assert(s@.skip(id_start as int).skip(1) =~= s@.skip(id_start as int + 1));
    }
    while i < len && is_identifier_part(s.get_char(i))
        invariant
            id_start < i <= len,
            len == s@.len(),
            identifier_tail_run(s@.skip(id_start as int + 1)) == (i - id_start - 1)
                + identifier_tail_run(s@.skip(i as int)),
        decreases len - i,
    {
        proof {
            assert(s@.skip(i as int)[0] == s@[i as int]);
            assert(s@.skip(i as int).skip(1) =~= s@.skip(i as int + 1));
        }
        i = i + 1;
    }
    proof {
        assert(identifier_tail_run(s@.skip(i as int)) == 0);
        assert(identifier_run(s@.skip(id_start as int)) == i - id_start);
        assert(tail.skip(id_from) =~= s@.skip(id_start as int));
    }
    let id_end = i;
    let id = String::from_str(s.substring_char(id_start, id_end));
    let ghost id_to = id_from + (id_end - id_start);
    proof {
        assert(tail.skip(id_to) =~= s@.skip(id_end as int));
        assert(tail.subrange(id_from, id_to) =~= s@.subrange(id_start as int, id_end as int));
    }

    // Trailing whitespace before the closing delimiter.
    while i < len && is_whitespace(s.get_char(i))
        invariant
            id_end <= i <= len,
            len == s@.len(),
            whitespace_run(s@.skip(id_end as int)) == (i - id_end) + whitespace_run(
                s@.skip(i as int),
            ),
        decreases len - i,
    {
        proof {
            assert(s@.skip(i as int)[0] == s@[i as int]);
            assert(s@.skip(i as int).skip(1) =~= s@.skip(i as int + 1));
        }
        i = i + 1;
    }
    proof {
        assert(whitespace_run(s@.skip(i as int)) == 0);
    }
    let ghost close = id_to + (i - id_end);

    // The closing delimiter.
    if len - i < 2 {
        return Err(ParseError { position: i, kind: ParseErrorKind::UnterminatedTag });
    }
    let d0 = s.get_char(i);
    let d1 = s.get_char(i + 1);
    proof {
        assert(tail[close] == s@[i as int]);
        assert(tail[close + 1] == s@[i as int + 1]);
    }
    if d0 == '}' && d1 == '}' {
        proof {
            assert(spec_tag(tail) == Some((id@, (i + 2 - from) as nat)));
        }
        Ok((Partial::Tag(id), i + 2))
    } else {
        Err(ParseError { position: i, kind: ParseErrorKind::InvalidIdentifier })
    }
}

/// Parses one fragment at `from`: a tag where the next character is `{`,
/// otherwise a literal run.
pub fn partial(s: &str, from: usize) -> (r: Result<(Partial, usize), ParseError>)
    requires
        from <= s@.len(),
    ensures
        match r {
            Ok((p, end)) => {
                &&& from < end <= s@.len()
                &&& spec_fragment(s@.skip(from as int)) == Some((p@, (end - from) as nat))
            },
            Err(e) => {
                &&& spec_fragment(s@.skip(from as int)) is None
                &&& from <= e.position <= s@.len()
                &&& e.position == from + fragment_failure(s@.skip(from as int)).0
                &&& e.kind == fragment_failure(s@.skip(from as int)).1
            },
        },
{
    let ghost tail = s@.skip(from as int);
    let len = s.unicode_len();
    if from < len && s.get_char(from) == '{' {
        proof {
            assert(tail[0] == s@[from as int]);
        }
        tag(s, from)
    } else {
        proof {
            if from < len {
                assert(tail[0] == s@[from as int]);
            }
        }
        let r = string_literal(s, from);
        proof {
            if r is Ok {
                assert(tail.len() > 0 && tail[0] != '{' && tail[0] != '}');
            }
        }
        r
    }
}

/// Parses a whole template: every fragment of `s`, in order, consuming the
/// entire input.
pub fn document_template(s: &str) -> (r: Result<DocumentTemplate, ParseError>)
    ensures
        match r {
            Ok(t) => spec_parse(s@) == Some(t@),
            Err(e) => {
                &&& spec_parse(s@) is None
                &&& e.position <= s@.len()
                &&& e.position == parse_failure(s@).0
                &&& e.kind == parse_failure(s@).1
            },
        },
{
    let len = s.unicode_len();
    let mut partials: Vec<Partial> = Vec::new();
    let mut i: usize = 0;
    proof {
        assert(s@.skip(0) =~= s@);
        if let Some(rest) = spec_parse(s@) {
            assert(partials@.map_values(|p: Partial| p@) + rest =~= rest);
        }
    }
    while i < len
        invariant
            i <= len,
            len == s@.len(),
            match spec_parse(s@.skip(i as int)) {
                Some(rest) => spec_parse(s@) == Some(
                    partials@.map_values(|p: Partial| p@) + rest,
                ),
                None => spec_parse(s@) is None,
            },
            spec_parse(s@.skip(i as int)) is None ==> parse_failure(s@) == (
                (i + parse_failure(s@.skip(i as int)).0) as nat,
                parse_failure(s@.skip(i as int)).1,
            ),
        decreases len - i,
    {
        match partial(s, i) {
            Ok((p, end)) => {
                proof {
                    assert(s@.skip(i as int).skip((end - i) as int) =~= s@.skip(end as int));
                }
                let ghost views_before = partials@.map_values(|q: Partial| q@);
                partials.push(p);
                proof {
                    assert(partials@.map_values(|q: Partial| q@) =~= views_before.push(p@));
                    if let Some(rest) = spec_parse(s@.skip(end as int)) {
                        assert(views_before + (seq![p@] + rest) =~= views_before.push(p@) + rest);
                    }
                }
                i = end;
            },
            Err(e) => {
                return Err(e);
            },
        }
    }
    proof {
        assert(s@.skip(len as int) =~= Seq::<char>::empty());
        assert(spec_parse(s@.skip(len as int)) == Some(Seq::<SpecPartial>::empty()));
        if let Some(rest) = spec_parse(s@.skip(len as int)) {
            assert(partials@.map_values(|p: Partial| p@) + rest =~= partials@.map_values(
                |p: Partial| p@,
            ));
        }
    }
    Ok(DocumentTemplate { partials })
}

} // verus!
