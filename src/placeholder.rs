use vstd::prelude::*;

use crate::text::{check_identifier, is_identifier};
use crate::tree::{contains_string, strings_view, LeafType, LeafView};

verus! {

/// The name inside each successive non-overlapping `{{name}}` placeholder of a text, in order
/// of occurrence, as the pattern `\{\{(.+?)\}\}` finds them.
pub uninterp spec fn placeholder_names(text: Seq<char>) -> Seq<Seq<char>>;

/// The pieces of a text that lie between its successive placeholders, in order.
pub uninterp spec fn placeholder_gaps(text: Seq<char>) -> Seq<Seq<char>>;

/// Relies on `regex::Regex::captures_iter` with the placeholder pattern: the text of the
/// first group of each successive match.
#[verifier::external_body]
fn scan_placeholder_names(text: &str) -> (r: Vec<String>)
    ensures
        strings_view(r@) == placeholder_names(text@),
{
    let re = regex::Regex::new(r"\{\{(.+?)\}\}").unwrap();
    re.captures_iter(text).filter_map(|c| c.get(1)).map(|m| m.as_str().to_string()).collect()
}

/// Relies on `regex::Regex::split` with the placeholder pattern: the text between
/// successive matches, one piece more than there are matches.
#[verifier::external_body]
fn split_at_placeholders(text: &str) -> (r: Vec<String>)
    ensures
        strings_view(r@) == placeholder_gaps(text@),
        r@.len() == placeholder_names(text@).len() + 1,
{
    let re = regex::Regex::new(r"\{\{(.+?)\}\}").unwrap();
    re.split(text).map(|s| s.to_string()).collect()
}

/// The placeholder names of `text`, in order of occurrence, repeats included.
pub fn placeholder_occurrences(text: &str) -> (r: Vec<String>)
    ensures
        strings_view(r@) == placeholder_names(text@),
{
    scan_placeholder_names(text)
}

/// The pieces of `text` between its placeholders.
pub fn placeholder_pieces(text: &str) -> (r: Vec<String>)
    ensures
        strings_view(r@) == placeholder_gaps(text@),
        r@.len() == placeholder_names(text@).len() + 1,
{
    split_at_placeholders(text)
}

/// The names of `s` without repeats, each where it first occurs.
pub open spec fn distinct_names(s: Seq<Seq<char>>) -> Seq<Seq<char>>
    decreases s.len(),
{
    if s.len() == 0 {
        s
    } else {
        let d = distinct_names(s.drop_last());
        if d.contains(s.last()) {
            d
        } else {
            d.push(s.last())
        }
    }
}

/// The leaf for `text` whose placeholders carry `names`: a literal when there are none,
/// otherwise a parametrized leaf with the distinct names in order of first occurrence.
pub open spec fn leaf_from(text: Seq<char>, names: Seq<Seq<char>>) -> LeafView {
    if names.len() == 0 {
        LeafView::Literal(text)
    } else {
        LeafView::Parametrized { parameters: distinct_names(names), raw: text }
    }
}

/// The classification of a text as a leaf, which depends on the text alone.
pub open spec fn classify(text: Seq<char>) -> LeafView {
    leaf_from(text, placeholder_names(text))
}

/// The text a leaf was made from.
pub open spec fn leaf_text(l: LeafView) -> Seq<char> {
    match l {
        LeafView::Literal(t) => t,
        LeafView::Parametrized { raw, .. } => raw,
    }
}

/// A leaf's classification is recovered from its own text alone: the leaf made from a text
/// holds that text, classifying that text again gives the same leaf, and the leaf is
/// parametrized exactly when the text holds a placeholder.
pub proof fn lemma_classification_from_text(text: Seq<char>)
    ensures
        leaf_text(classify(text)) == text,
        classify(leaf_text(classify(text))) == classify(text),
        (classify(text) is Parametrized) <==> placeholder_names(text).len() > 0,
{
}

/// The names of `names` without repeats, each where it first occurs.
pub fn dedup_names(names: &Vec<String>) -> (r: Vec<String>)
    ensures
        strings_view(r@) == distinct_names(strings_view(names@)),
{
    let ghost s = strings_view(names@);
    let mut out: Vec<String> = Vec::new();
    let mut i: usize = 0;
    while i < names.len()
        invariant
            i <= names.len(),
            s == strings_view(names@),
            strings_view(out@) == distinct_names(s.take(i as int)),
        decreases names.len() - i,
    {
        proof {
            assert(s.take(i + 1).drop_last() =~= s.take(i as int));
            assert(s.take(i + 1).last() == names@[i as int]@);
        }
        if !contains_string(&out, &names[i]) {
            let ghost before = out@;
            out.push(names[i].clone());
            assert(strings_view(out@) =~= strings_view(before).push(names@[i as int]@));
        }
        i += 1;
    }
    assert(s.take(names.len() as int) =~= s);
    out
}

/// The leaf for `text` given the names that its placeholders carry.
pub fn leaf_from_names(text: String, names: &Vec<String>) -> (r: LeafType)
    ensures
        r@ == leaf_from(text@, strings_view(names@)),
{
    if names.len() == 0 {
        LeafType::LiteralLeaf(text)
    } else {
        LeafType::ParametrizedLeaf { parameters: dedup_names(names), raw: text }
    }
}

impl LeafType {
    /// Classifies a text: parametrized when it holds at least one placeholder, literal otherwise.
    pub fn from_text(text: String) -> (r: LeafType)
        ensures
            r@ == classify(text@),
    {
        let names = scan_placeholder_names(text.as_str());
        leaf_from_names(text, &names)
    }

    /// The text this leaf holds.
    pub fn text(&self) -> (r: &String)
        ensures
            r@ == leaf_text(self@),
    {
        match self {
            LeafType::LiteralLeaf(t) => t,
            LeafType::ParametrizedLeaf { raw, .. } => raw,
        }
    }
}

/// A leaf whose text placeholders all name one of its parameters, and whose parameters are
/// all identifiers, so that generated code can take them as arguments.
pub open spec fn renderable_leaf(l: LeafView) -> bool {
    match l {
        LeafView::Literal(_) => true,
        LeafView::Parametrized { parameters, raw } => all_identifiers(parameters) && all_declared(
            placeholder_names(raw),
            parameters,
        ),
    }
}

/// Every name of `names` is an identifier.
pub open spec fn all_identifiers(names: Seq<Seq<char>>) -> bool {
    forall|i: int| 0 <= i < names.len() ==> is_identifier(#[trigger] names[i])
}

/// Every name of `used` is among `declared`.
pub open spec fn all_declared(used: Seq<Seq<char>>, declared: Seq<Seq<char>>) -> bool {
    forall|j: int| 0 <= j < used.len() ==> declared.contains(#[trigger] used[j])
}

/// Whether every name of `used` is among `declared`.
pub fn names_declared(used: &Vec<String>, declared: &Vec<String>) -> (r: bool)
    ensures
        r == all_declared(strings_view(used@), strings_view(declared@)),
{
    let ghost us = strings_view(used@);
    let ghost ds = strings_view(declared@);
    let mut k: usize = 0;
    while k < used.len()
        invariant
            k <= used.len(),
            us == strings_view(used@),
            ds == strings_view(declared@),
            forall|j: int| 0 <= j < k ==> ds.contains(#[trigger] us[j]),
        decreases used.len() - k,
    {
        if !contains_string(declared, &used[k]) {
            assert(us[k as int] == used@[k as int]@);
            assert(!ds.contains(us[k as int]));
            return false;
        }
        k += 1;
    }
    true
}

/// Whether the parameters of a leaf can be rewritten safely into generated code.
pub fn leaf_is_renderable(l: &LeafType) -> (r: bool)
    ensures
        r == renderable_leaf(l@),
{
    match l {
        LeafType::LiteralLeaf(_) => true,
        LeafType::ParametrizedLeaf { parameters, raw } => {
            let ghost ps = strings_view(parameters@);
            let mut i: usize = 0;
            while i < parameters.len()
                invariant
                    i <= parameters.len(),
                    ps == strings_view(parameters@),
                    l@ == (LeafView::Parametrized { parameters: ps, raw: raw@ }),
                    forall|j: int| 0 <= j < i ==> is_identifier(#[trigger] ps[j]),
                decreases parameters.len() - i,
            {
                if !check_identifier(parameters[i].as_str()) {
                    assert(!is_identifier(ps[i as int]));
                    assert(!renderable_leaf(l@));
                    return false;
                }
                i += 1;
            }
            let names = scan_placeholder_names(raw.as_str());
            names_declared(&names, parameters)
        },
    }
}

} // verus!
