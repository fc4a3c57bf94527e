use vstd::prelude::*;

use crate::error::HostError;

verus! {

/// The canonical absolute identity of a module: the serialised URL that a raw
/// reference resolves to.  Two references to the same module resolve to equal
/// `href`s, which is what the graph de-duplicates on.
#[derive(Debug, Clone, PartialEq, Eq, Hash)]
pub struct ModuleSpecifier {
    pub href: String,
}

impl View for ModuleSpecifier {
    type V = Seq<char>;

    open spec fn view(&self) -> Seq<char> {
        self.href@
    }
}

/// What `url::Url::parse` gives for a reference read on its own: the
/// serialised absolute URL, or nothing where it is not one.
pub uninterp spec fn parsed_url(raw: Seq<char>) -> Option<Seq<char>>;

/// What `url::Url::join` gives for `raw` against the URL whose serialisation
/// is `base`: the serialised result, or nothing where either is malformed.
pub uninterp spec fn joined_url(base: Seq<char>, raw: Seq<char>) -> Option<Seq<char>>;

/// Relies on `url::Url::parse`: a function of the text alone, returned in its
/// serialised form.
#[verifier::external_body]
fn parse_absolute(raw: &str) -> (r: Option<String>)
    ensures
        match r {
            Some(s) => parsed_url(raw@) == Some(s@),
            None => parsed_url(raw@) is None,
        },
{
    match url::Url::parse(raw) {
        Ok(u) => Some(u.into()),
        Err(_) => None,
    }
}

/// Relies on `url::Url::join`, with the base's canonical text read back into
/// a `Url`: a function of the two strings alone, returned serialised.
#[verifier::external_body]
fn join_relative(base: &str, raw: &str) -> (r: Option<String>)
    ensures
        match r {
            Some(s) => joined_url(base@, raw@) == Some(s@),
            None => joined_url(base@, raw@) is None,
        },
{
    match url::Url::parse(base).and_then(|b| b.join(raw)) {
        Ok(u) => Some(u.into()),
        Err(_) => None,
    }
}

/// What `resolve` yields for `raw` against an optional base, as a model.
pub open spec fn resolve_spec(base: Option<Seq<char>>, raw: Seq<char>) -> Option<Seq<char>> {
    match base {
        Some(b) => joined_url(b, raw),
        None => parsed_url(raw),
    }
}

/// What a call of `resolve` on these inputs returns: the model's
/// specifier, or `InvalidSpecifier` carrying the raw text.
pub open spec fn resolved(base: Option<Seq<char>>, raw: Seq<char>, r: Result<ModuleSpecifier, HostError>) -> bool {
    match r {
        Ok(s) => resolve_spec(base, raw) == Some(s@),
        Err(e) => resolve_spec(base, raw) is None
            && (e matches HostError::InvalidSpecifier { raw: t } && t@ == raw),
    }
}

/// Resolution is deterministic: two calls with equal inputs agree, so equal
/// references always land on the same graph record.
pub proof fn lemma_resolve_deterministic(
    base: Option<Seq<char>>,
    raw: Seq<char>,
    r1: Result<ModuleSpecifier, HostError>,
    r2: Result<ModuleSpecifier, HostError>,
)
    requires
        resolved(base, raw, r1),
        resolved(base, raw, r2),
    ensures
        r1 is Ok <==> r2 is Ok,
        r1 is Ok ==> r1->Ok_0@ == r2->Ok_0@,
        r1 is Err ==> (r1->Err_0 matches HostError::InvalidSpecifier { raw: a }
            && r2->Err_0 matches HostError::InvalidSpecifier { raw: b } && a@ == b@),
{
}

/// The canonical text of an optional base.
pub open spec fn base_view(base: Option<&ModuleSpecifier>) -> Option<Seq<char>> {
    match base {
        Some(b) => Some(b@),
        None => None,
    }
}

impl ModuleSpecifier {
    /// A copy with the same canonical text.
    pub fn duplicate(&self) -> (r: ModuleSpecifier)
        ensures
            r@ == self@,
    {
        ModuleSpecifier { href: self.href.clone() }
    }

    /// Whether two specifiers denote the same module.
    pub fn same_module(&self, other: &ModuleSpecifier) -> (r: bool)
        ensures
            r == (self@ == other@),
    {
        self.href == other.href
    }
}

/// Canonicalises `raw` against `base`: relative references are joined to the
/// base, absolute ones stand alone; a malformed reference is refused.
pub fn resolve(base: Option<&ModuleSpecifier>, raw: &str) -> (r: Result<ModuleSpecifier, HostError>)
    ensures
        resolved(base_view(base), raw@, r),
{
    let found = match base {
        Some(b) => join_relative(b.href.as_str(), raw),
        None => parse_absolute(raw),
    };
    match found {
        Some(href) => Ok(ModuleSpecifier { href }),
        None => Err(HostError::InvalidSpecifier { raw: raw.to_string() }),
    }
}

} // verus!
