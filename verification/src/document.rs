//! Templates, their fragments, and the saturation pass that fills each tag
//! with a supplied value.

use vstd::prelude::*;

verus! {

/// The name of a tag, as written between `{{` and `}}`.
pub type Identifier = String;

/// One fragment of a parsed template: literal text that is emitted verbatim,
/// or a named tag that is resolved during saturation.
#[derive(Debug, PartialEq, Clone)]
pub enum Partial {
    StringLiteral(String),
    Tag(Identifier),
}

/// The mathematical shape of a fragment, with character sequences in place of
/// heap-allocated strings.
pub enum SpecPartial {
    Literal(Seq<char>),
    Tag(Seq<char>),
}

impl View for Partial {
    type V = SpecPartial;

    open spec fn view(&self) -> SpecPartial {
        match self {
            Partial::StringLiteral(text) => SpecPartial::Literal(text@),
            Partial::Tag(id) => SpecPartial::Tag(id@),
        }
    }
}

/// A template is an ordered list of fragments; the order is the exact
/// emission order of the output.
#[derive(Debug, PartialEq)]
pub struct DocumentTemplate {
    pub partials: Vec<Partial>,
}

impl View for DocumentTemplate {
    type V = Seq<SpecPartial>;

    open spec fn view(&self) -> Seq<SpecPartial> {
        self.partials@.map_values(|p: Partial| p@)
    }
}

/// A key/value association: `key` names a tag and `value` is the text that
/// replaces each occurrence of that tag.
#[derive(Debug, PartialEq)]
pub struct TagPair {
    pub key: String,
    pub value: String,
}

impl View for TagPair {
    type V = (Seq<char>, Seq<char>);

    open spec fn view(&self) -> (Seq<char>, Seq<char>) {
        (self.key@, self.value@)
    }
}

/// The views of a list of tag pairs, in the order they were supplied.
pub open spec fn pairs_view(pairs: Seq<TagPair>) -> Seq<(Seq<char>, Seq<char>)> {
    pairs.map_values(|p: TagPair| p@)
}

/// A fully substituted document: the output of a successful saturation.
#[derive(Debug, PartialEq)]
pub struct FilledDocument(String);

impl View for FilledDocument {
    type V = Seq<char>;

    closed spec fn view(&self) -> Seq<char> {
        self.0@
    }
}

impl FilledDocument {
    /// The substituted text.
    pub fn document(&self) -> (text: &str)
        ensures
            text@ == self@,
    {
        self.0.as_str()
    }
}

/// Why a saturation failed.
#[derive(Debug, PartialEq)]
pub enum TemplateError {
    /// The template contains a tag for which no pair supplies a value; the
    /// payload is the unresolved identifier.
    MissingRequiredTagValue(Identifier),
    /// Reserved for callers that demand every pair be used by the template.
    NonExhaustiveTags(Vec<Identifier>),
}

/// The value of the first pair whose key equals `key`, if any. Later pairs
/// with the same key never shadow an earlier one.
pub open spec fn spec_lookup(pairs: Seq<(Seq<char>, Seq<char>)>, key: Seq<char>) -> Option<
    Seq<char>,
>
    decreases pairs.len(),
{
    if pairs.len() == 0 {
        None
    } else if pairs[0].0 == key {
        Some(pairs[0].1)
    } else {
        spec_lookup(pairs.skip(1), key)
    }
}

/// Saturation, fragment by fragment: literals pass through verbatim, each tag
/// is replaced by the value of the first pair matching it, and the first tag
/// with no matching pair aborts the whole pass with its identifier.
pub open spec fn spec_saturate(
    ps: Seq<SpecPartial>,
    pairs: Seq<(Seq<char>, Seq<char>)>,
) -> Result<Seq<char>, Seq<char>>
    decreases ps.len(),
{
    if ps.len() == 0 {
        Ok(Seq::empty())
    } else {
        match ps[0] {
            SpecPartial::Literal(text) => match spec_saturate(ps.skip(1), pairs) {
                Ok(rest) => Ok(text + rest),
                Err(id) => Err(id),
            },
            SpecPartial::Tag(id) => match spec_lookup(pairs, id) {
                Some(value) => match spec_saturate(ps.skip(1), pairs) {
                    Ok(rest) => Ok(value + rest),
                    Err(missing) => Err(missing),
                },
                None => Err(id),
            },
        }
    }
}

/// The concatenation of the literal fragments of `ps`, which is the whole
/// output whenever `ps` holds no tag.
pub open spec fn literal_text(ps: Seq<SpecPartial>) -> Seq<char>
    decreases ps.len(),
{
    if ps.len() == 0 {
        Seq::empty()
    } else {
        (match ps[0] {
            SpecPartial::Literal(text) => text,
            SpecPartial::Tag(_) => Seq::empty(),
        }) + literal_text(ps.skip(1))
    }
}

/// A copy of a fragment, equal to the one given.
fn clone_partial(p: &Partial) -> (r: Partial)
    ensures
        r == *p,
{
    match p {
        Partial::StringLiteral(text) => Partial::StringLiteral(text.clone()),
        Partial::Tag(id) => Partial::Tag(id.clone()),
    }
}

impl DocumentTemplate {
    /// An empty template.
    pub fn new() -> (t: Self)
        ensures
            t@ == Seq::<SpecPartial>::empty(),
    {
        DocumentTemplate::default()
    }

    /// A template made of the given fragments, in the given order.
    pub fn with_partials(partials: &[Partial]) -> (t: Self)
        ensures
            t@ == partials@.map_values(|p: Partial| p@),
    {
        let mut copied: Vec<Partial> = Vec::new();
        let n = partials.len();
        let mut i: usize = 0;
        while i < n
            invariant
                i <= n,
                n == partials@.len(),
                copied@ =~= partials@.subrange(0, i as int),
            decreases n - i,
        {
            copied.push(clone_partial(vstd::slice::slice_index_get(partials, i)));
            i = i + 1;
        }
        proof {
            assert(copied@ =~= partials@);
        }
        DocumentTemplate { partials: copied }
    }

    /// Appends one fragment at the end of the template.
    pub fn add_partial(&mut self, partial: &Partial)
        ensures
            final(self)@ == old(self)@.push(partial@),
    {
        self.partials.push(clone_partial(partial));
        proof {
            assert(final(self)@ =~= old(self)@.push(partial@));
        }
    }
}

impl Default for DocumentTemplate {
    /// An empty template.
    fn default() -> (t: Self)
        ensures
            t@ == Seq::<SpecPartial>::empty(),
    {
        let t = DocumentTemplate { partials: Vec::new() };
        proof {
            assert(t@ =~= Seq::<SpecPartial>::empty());
        }
        t
    }
}

/// The value of the first pair whose key equals `tag_key`, or the
/// missing-tag error carrying `tag_key` when no pair matches.
pub fn saturate_or_error<'a>(tag_pairs: &'a [TagPair], tag_key: &String) -> (r: Result<
    &'a String,
    TemplateError,
>)
    ensures
        match r {
            Ok(value) => spec_lookup(pairs_view(tag_pairs@), tag_key@) == Some(value@),
            Err(e) => {
                &&& spec_lookup(pairs_view(tag_pairs@), tag_key@) is None
                &&& e == TemplateError::MissingRequiredTagValue(*tag_key)
            },
        },
{
    let ghost pv = pairs_view(tag_pairs@);
    proof {
        assert(pv.skip(0) =~= pv);
    }
    let n = tag_pairs.len();
    let mut i: usize = 0;
    while i < n
        invariant
            i <= n,
            n == tag_pairs@.len(),
            pv == pairs_view(tag_pairs@),
            spec_lookup(pv, tag_key@) == spec_lookup(pv.skip(i as int), tag_key@),
        decreases n - i,
    {
        let pair = vstd::slice::slice_index_get(tag_pairs, i);
        proof {
            assert(pv.skip(i as int)[0] == pv[i as int]);
            assert(pv.skip(i as int).skip(1) =~= pv.skip(i as int + 1));
        }
        if pair.key == *tag_key {
            return Ok(&pair.value);
        }
        i = i + 1;
    }
    proof {
        assert(pv.skip(n as int) =~= Seq::<(Seq<char>, Seq<char>)>::empty());
    }
    Err(TemplateError::MissingRequiredTagValue(tag_key.clone()))
}

impl DocumentTemplate {
    /// Fills every tag of the template from `tag_pairs` and returns the
    /// substituted text, or the first unresolved identifier. No partial
    /// output is ever produced: the pass is all-or-nothing.
    pub fn saturate(&self, tag_pairs: &[TagPair]) -> (r: Result<FilledDocument, TemplateError>)
        ensures
            match r {
                Ok(doc) => spec_saturate(self@, pairs_view(tag_pairs@)) == Ok::<
                    Seq<char>,
                    Seq<char>,
                >(doc@),
                Err(e) => {
                    &&& spec_saturate(self@, pairs_view(tag_pairs@)) is Err
                    &&& e matches TemplateError::MissingRequiredTagValue(id) && id@
                        == spec_saturate(self@, pairs_view(tag_pairs@))->Err_0
                },
            },
    {
        let ghost ps = self@;
        let ghost pv = pairs_view(tag_pairs@);
        let mut content = String::new();
        proof {
            assert(ps.skip(0) =~= ps);
            if let Ok(rest) = spec_saturate(ps, pv) {
                assert(content@ + rest =~= rest);
            }
        }
        let n = self.partials.len();
        let mut i: usize = 0;
        while i < n
            invariant
                i <= n,
                n == self.partials@.len(),
                ps == self@,
                pv == pairs_view(tag_pairs@),
                match spec_saturate(ps.skip(i as int), pv) {
                    Ok(rest) => spec_saturate(ps, pv) == Ok::<Seq<char>, Seq<char>>(
                        content@ + rest,
                    ),
                    Err(id) => spec_saturate(ps, pv) == Err::<Seq<char>, Seq<char>>(id),
                },
            decreases n - i,
        {
            proof {
                assert(ps.skip(i as int)[0] == ps[i as int]);
                assert(ps.skip(i as int).skip(1) =~= ps.skip(i as int + 1));
            }
            let ghost content_before = content@;
            match &self.partials[i] {
                Partial::StringLiteral(text) => {
                    content.append(text.as_str());
                    proof {
                        if let Ok(rest) = spec_saturate(ps.skip(i as int + 1), pv) {
                            assert(content_before + (text@ + rest) =~= content@ + rest);
                        }
                    }
                },
                Partial::Tag(id) => {
                    match saturate_or_error(tag_pairs, id) {
                        Ok(value) => {
                            content.append(value.as_str());
                            proof {
                                if let Ok(rest) = spec_saturate(ps.skip(i as int + 1), pv) {
                                    assert(content_before + (value@ + rest) =~= content@ + rest);
                                }
                            }
                        },
                        Err(e) => {
                            return Err(e);
                        },
                    }
                },
            }
            i = i + 1;
        }
        proof {
            assert(ps.skip(n as int) =~= Seq::<SpecPartial>::empty());
            assert(content@ + Seq::<char>::empty() =~= content@);
        }
        Ok(FilledDocument(content))
    }
}

/// A template whose fragments are all literals saturates successfully against
/// any pair collection, and the output is its literal text unchanged; the
/// pairs, used or not, never influence the result.
pub proof fn lemma_saturate_no_tags(ps: Seq<SpecPartial>, pairs: Seq<(Seq<char>, Seq<char>)>)
    requires
        forall|i: int| 0 <= i < ps.len() ==> ps[i] is Literal,
    ensures
        spec_saturate(ps, pairs) == Ok::<Seq<char>, Seq<char>>(literal_text(ps)),
    decreases ps.len(),
{
    if ps.len() == 0 {
    } else {
        assert(forall|i: int| 0 <= i < ps.skip(1).len() ==> ps.skip(1)[i] is Literal);
        lemma_saturate_no_tags(ps.skip(1), pairs);
    }
}

/// A template that mentions a tag with no matching pair never saturates: the
/// pass fails, and the reported identifier is itself a tag of the template
/// with no matching pair.
pub proof fn lemma_missing_tag_fails(
    ps: Seq<SpecPartial>,
    pairs: Seq<(Seq<char>, Seq<char>)>,
    id: Seq<char>,
)
    requires
        ps.contains(SpecPartial::Tag(id)),
        spec_lookup(pairs, id) is None,
    ensures
        spec_saturate(ps, pairs) is Err,
        ps.contains(SpecPartial::Tag(spec_saturate(ps, pairs)->Err_0)),
        spec_lookup(pairs, spec_saturate(ps, pairs)->Err_0) is None,
    decreases ps.len(),
{
    let j = choose|j: int| 0 <= j < ps.len() && ps[j] == SpecPartial::Tag(id);
    match ps[0] {
        SpecPartial::Literal(_) => {
            assert(ps.skip(1)[j - 1] == ps[j]);
            lemma_missing_tag_fails(ps.skip(1), pairs, id);
            let missing = spec_saturate(ps.skip(1), pairs)->Err_0;
            let k = choose|k: int|
                0 <= k < ps.skip(1).len() && ps.skip(1)[k] == SpecPartial::Tag(missing);
            assert(ps[k + 1] == ps.skip(1)[k]);
        },
        SpecPartial::Tag(first_id) => {
            match spec_lookup(pairs, first_id) {
                Some(_) => {
                    if j == 0 {
                        assert(false);
                    }
                    assert(ps.skip(1)[j - 1] == ps[j]);
                    lemma_missing_tag_fails(ps.skip(1), pairs, id);
                    let missing = spec_saturate(ps.skip(1), pairs)->Err_0;
                    let k = choose|k: int|
                        0 <= k < ps.skip(1).len() && ps.skip(1)[k] == SpecPartial::Tag(missing);
                    assert(ps[k + 1] == ps.skip(1)[k]);
                },
                None => {
                    assert(ps[0] == SpecPartial::Tag(first_id));
                },
            }
        },
    }
}

} // verus!
