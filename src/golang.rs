use vstd::prelude::*;

use crate::error::TrustlateError;
use crate::placeholder::{
    placeholder_gaps, placeholder_names, placeholder_occurrences,
    placeholder_pieces,
};
use crate::text::{
    capitalize_first_letter, capitalized, concat_all, join, join_strings, lemma_concat_step,
    to_upper, upper_of, weave, weave_template,
};
use crate::tree::{
    copy_strings, entries_view, lemma_entries_view, node_view, strings_view, Entries, LeafType,
    LeafView, NodeView, Path, TranslationTreeNode, TranslationsTree,
};
use crate::order::{
    keys_unique, lemma_key_order_canonical, picked, positions, sort_order, sorted_positions,
};
use crate::typescript::{
    entries_renderable, renderable_entries, ts_entries, ts_ordered, wrap_each, wrapped,
};

verus! {

/// One accessor of the interface-and-implementation format: the locale it belongs to, its
/// parameters (none for a literal), the path of its leaf, and the leaf's text.
#[derive(Debug, Clone, PartialEq, Eq)]
pub struct GolangGenerationFunc {
    pub lang: String,
    pub params: Option<Vec<String>>,
    pub path: Vec<String>,
    pub translation: String,
}

/// An accessor as mathematical values.
pub struct GoFuncView {
    pub lang: Seq<char>,
    pub params: Option<Seq<Seq<char>>>,
    pub path: Path,
    pub translation: Seq<char>,
}

impl View for GolangGenerationFunc {
    type V = GoFuncView;

    open spec fn view(&self) -> GoFuncView {
        GoFuncView {
            lang: self.lang@,
            params: match self.params {
                Some(ps) => Some(strings_view(ps@)),
                None => None,
            },
            path: strings_view(self.path@),
            translation: self.translation@,
        }
    }
}

pub open spec fn funcs_view(v: Seq<GolangGenerationFunc>) -> Seq<GoFuncView> {
    v.map_values(|f: GolangGenerationFunc| f@)
}

/// The name of the implementation type of a locale.
pub open spec fn go_receiver(lang: Seq<char>) -> Seq<char> {
    "Trustlate"@ + upper_of(lang)
}

/// The name of the accessor of a leaf: the path's keys, each capitalized, one after the other.
pub open spec fn go_fn_name(path: Path) -> Seq<char> {
    concat_all(path.map_values(|s: Seq<char>| capitalized(s)))
}

/// A parameter list with one text parameter per name.
pub open spec fn go_params(ps: Seq<Seq<char>>) -> Seq<char> {
    join(wrapped(ps, Seq::empty(), " string"@), ", "@)
}

/// A formatting call for a text whose placeholders carry `names` and whose other pieces are
/// `gaps`: each placeholder becomes one positional marker, filled in order by the names.
pub open spec fn go_sprintf(gaps: Seq<Seq<char>>, names: Seq<Seq<char>>) -> Seq<char> {
    "fmt.Sprintf(\""@ + weave(gaps, names.map_values(|n: Seq<char>| "%s"@)) + "\", "@ + join(
        names,
        ", "@,
    ) + ")"@
}

/// The implementation of an accessor for its locale.
pub open spec fn go_function(f: GoFuncView) -> Seq<char> {
    match f.params {
        Some(ps) => "func (trl *"@ + go_receiver(f.lang) + ") "@ + go_fn_name(f.path) + "("@
            + go_params(ps) + ") string {\n   return "@ + go_sprintf(
            placeholder_gaps(f.translation),
            placeholder_names(f.translation),
        ) + "\n}"@,
        None => "func (trl *"@ + go_receiver(f.lang) + ") "@ + go_fn_name(f.path)
            + "() string {\n   return \""@ + f.translation + "\"\n}"@,
    }
}

/// The signature of an accessor in the shared interface.
pub open spec fn go_interface_entry(f: GoFuncView) -> Seq<char> {
    match f.params {
        Some(ps) => go_fn_name(f.path) + "("@ + go_params(ps) + ") string"@,
        None => go_fn_name(f.path) + "() string"@,
    }
}

/// The name of the implementation type of a locale.
pub fn make_receiver_name(lang: &String) -> (r: String)
    ensures
        r@ == go_receiver(lang@),
{
    let mut s = "Trustlate".to_owned();
    s.append(to_upper(lang.as_str()).as_str());
    s
}

/// The accessor name for a leaf path.
pub fn make_function_name(path: &Vec<String>) -> (r: String)
    ensures
        r@ == go_fn_name(strings_view(path@)),
{
    let ghost parts = strings_view(path@).map_values(|s: Seq<char>| capitalized(s));
    let mut out = String::new();
    let mut i: usize = 0;
    while i < path.len()
        invariant
            i <= path.len(),
            parts == strings_view(path@).map_values(|s: Seq<char>| capitalized(s)),
            out@ == concat_all(parts.take(i as int)),
        decreases path.len() - i,
    {
        proof {
            lemma_concat_step(parts, i as int);
        }
        out.append(capitalize_first_letter(path[i].as_str()).as_str());
        i += 1;
    }
    assert(parts.take(path.len() as int) =~= parts);
    out
}

/// The parameter list of an accessor: one text parameter per name.
pub fn make_function_params(params: &Vec<String>) -> (r: String)
    ensures
        r@ == go_params(strings_view(params@)),
{
    proof {
        reveal_strlit("");
        assert(""@ =~= Seq::<char>::empty());
    }
    join_strings(&wrap_each(params, "", " string"), ", ")
}

/// The arguments of a formatting call: the names, separated by commas.
pub fn make_sprintf_params(params: &Vec<String>) -> (r: String)
    ensures
        r@ == join(strings_view(params@), ", "@),
{
    join_strings(params, ", ")
}

/// The format string of a text: its placeholders replaced by positional markers.
pub fn make_sprintf_translation(gaps: &Vec<String>, names: &Vec<String>) -> (r: String)
    ensures
        r@ == weave(
            strings_view(gaps@),
            strings_view(names@).map_values(|n: Seq<char>| "%s"@),
        ),
{
    let mut markers: Vec<String> = Vec::new();
    let mut i: usize = 0;
    while i < names.len()
        invariant
            i <= names.len(),
            markers.len() == i,
            forall|j: int| 0 <= j < i ==> #[trigger] markers@[j]@ == "%s"@,
        decreases names.len() - i,
    {
        markers.push("%s".to_owned());
        i += 1;
    }
    assert(strings_view(markers@) =~= strings_view(names@).map_values(|n: Seq<char>| "%s"@));
    weave_template(gaps, &markers)
}

/// The formatting call for a text given the pieces between its placeholders and the names
/// they carry.
pub fn make_sprintf_call(gaps: &Vec<String>, names: &Vec<String>) -> (r: String)
    ensures
        r@ == go_sprintf(strings_view(gaps@), strings_view(names@)),
{
    let mut s = "fmt.Sprintf(\"".to_owned();
    s.append(make_sprintf_translation(gaps, names).as_str());
    s.append("\", ");
    s.append(make_sprintf_params(names).as_str());
    s.append(")");
    s
}

impl GolangGenerationFunc {
    /// The implementation of this accessor for its locale: a literal returns its text; a
    /// parametrized leaf formats its text with the call's arguments in place of its
    /// placeholders.
    pub fn function_form(&self) -> (r: String)
        ensures
            r@ == go_function(self@),
    {
        let receiver_name = make_receiver_name(&self.lang);
        let fn_name = make_function_name(&self.path);
        let mut s = "func (trl *".to_owned();
        s.append(receiver_name.as_str());
        s.append(") ");
        s.append(fn_name.as_str());
        match &self.params {
            Some(params) => {
                let names = placeholder_occurrences(self.translation.as_str());
                let gaps = placeholder_pieces(self.translation.as_str());
                s.append("(");
                s.append(make_function_params(params).as_str());
                s.append(") string {\n   return ");
                s.append(make_sprintf_call(&gaps, &names).as_str());
                s.append("\n}");
            },
            None => {
                s.append("() string {\n   return \"");
                s.append(self.translation.as_str());
                s.append("\"\n}");
            },
        }
        s
    }

    /// The signature of this accessor in the shared interface.
    pub fn interface_entry_form(&self) -> (r: String)
        ensures
            r@ == go_interface_entry(self@),
    {
        let mut s = make_function_name(&self.path);
        match &self.params {
            Some(params) => {
                s.append("(");
                s.append(make_function_params(params).as_str());
                s.append(") string");
            },
            None => {
                s.append("() string");
            },
        }
        s
    }
}

/// The accessors for the leaves beneath a node at `path`; within each branch the entries
/// come in lexical order of their keys.
pub open spec fn node_funcs(n: NodeView, path: Path, lang: Seq<char>) -> Seq<GoFuncView>
    decreases n, 0nat,
{
    match n {
        NodeView::Leaf(LeafView::Literal(t)) => seq![
            GoFuncView { lang, params: None, path, translation: t },
        ],
        NodeView::Leaf(LeafView::Parametrized { parameters, raw }) => seq![
            GoFuncView { lang, params: Some(parameters), path, translation: raw },
        ],
        NodeView::Branch(es) => funcs_ordered(es, sort_order(es), path, lang),
    }
}

/// The accessors for the leaves beneath the entries at positions `ord`, in that order.
pub open spec fn funcs_ordered(es: Entries, ord: Seq<int>, path: Path, lang: Seq<char>) -> Seq<
    GoFuncView,
>
    decreases es, ord.len(),
{
    if ord.len() == 0 {
        Seq::empty()
    } else {
        let j = ord.last();
        funcs_ordered(es, ord.drop_last(), path, lang) + if 0 <= j < es.len() {
            node_funcs(es[j].1, path.push(es[j].0), lang)
        } else {
            Seq::empty()
        }
    }
}

/// The accessors for the leaves beneath the entries of a branch at `path`, the entries in
/// lexical order of their keys.
pub open spec fn entries_funcs(es: Entries, path: Path, lang: Seq<char>) -> Seq<GoFuncView> {
    funcs_ordered(es, sort_order(es), path, lang)
}

proof fn lemma_ordered_by_picked(a: Entries, oa: Seq<int>, b: Entries, ob: Seq<int>, path: Path, lang: Seq<char>)
    requires
        oa.len() == ob.len(),
        forall|m: int| 0 <= m < oa.len() ==> 0 <= #[trigger] oa[m] < a.len(),
        forall|m: int| 0 <= m < ob.len() ==> 0 <= #[trigger] ob[m] < b.len(),
        picked(a, oa) == picked(b, ob),
    ensures
        ts_ordered(a, oa) == ts_ordered(b, ob),
        funcs_ordered(a, oa, path, lang) == funcs_ordered(b, ob, path, lang),
    decreases oa.len(),
{
    if oa.len() > 0 {
        let n = oa.len() - 1;
        assert(picked(a, oa)[n] == picked(b, ob)[n]);
        assert(a[oa[n]] == b[ob[n]]);
        assert(picked(a, oa.drop_last()) =~= picked(a, oa).drop_last());
        assert(picked(b, ob.drop_last()) =~= picked(b, ob).drop_last());
        lemma_ordered_by_picked(a, oa.drop_last(), b, ob.drop_last(), path, lang);
    }
}

/// A branch is an unordered mapping: entries with unique keys that hold the same keyed
/// nodes, listed in any order, render the same structural object and the same accessors.
pub proof fn lemma_emission_ignores_entry_order(a: Entries, b: Entries, path: Path, lang: Seq<char>)
    requires
        keys_unique(a),
        keys_unique(b),
        forall|i: int| 0 <= i < a.len() ==> b.contains(#[trigger] a[i]),
        forall|i: int| 0 <= i < b.len() ==> a.contains(#[trigger] b[i]),
    ensures
        ts_entries(a) == ts_entries(b),
        entries_funcs(a, path, lang) == entries_funcs(b, path, lang),
{
    lemma_key_order_canonical(a, b);
    assert(picked(a, sort_order(a)).len() == sort_order(a).len());
    lemma_ordered_by_picked(a, sort_order(a), b, sort_order(b), path, lang);
}

/// Whether a node is a leaf.
pub fn is_leaf(node: &TranslationTreeNode) -> (r: bool)
    ensures
        r == (node@ is Leaf),
{
    match node {
        TranslationTreeNode::Leaf(_) => true,
        _ => false,
    }
}

fn collect_fns_rec(
    acc: &mut Vec<GolangGenerationFunc>,
    curr: &TranslationTreeNode,
    path: &Vec<String>,
    lang: &String,
)
    ensures
        funcs_view(final(acc)@) == funcs_view(old(acc)@) + node_funcs(
            curr@,
            strings_view(path@),
            lang@,
        ),
    decreases curr,
{
    let ghost before = funcs_view(acc@);
    match curr {
        TranslationTreeNode::Leaf(leaf) => {
            let f = match leaf {
                LeafType::LiteralLeaf(translation) => GolangGenerationFunc {
                    params: None,
                    path: copy_strings(path),
                    translation: translation.clone(),
                    lang: lang.clone(),
                },
                LeafType::ParametrizedLeaf { parameters, raw } => GolangGenerationFunc {
                    params: Some(copy_strings(parameters)),
                    path: copy_strings(path),
                    translation: raw.clone(),
                    lang: lang.clone(),
                },
            };
            acc.push(f);
            assert(funcs_view(acc@) =~= before + node_funcs(curr@, strings_view(path@), lang@));
        },
        TranslationTreeNode::NonLeaf(children) => collect_entries(acc, children, path, lang),
    }
}

fn collect_entries(
    acc: &mut Vec<GolangGenerationFunc>,
    children: &Vec<(String, TranslationTreeNode)>,
    path: &Vec<String>,
    lang: &String,
)
    ensures
        funcs_view(final(acc)@) == funcs_view(old(acc)@) + entries_funcs(
            entries_view(children@),
            strings_view(path@),
            lang@,
        ),
    decreases children,
{
    let ghost es = entries_view(children@);
    let ghost start = funcs_view(acc@);
    let ghost p = strings_view(path@);
    proof {
        lemma_entries_view(children@);
    }
    let ord = sorted_positions(children);
    let ghost ov = positions(ord@);
    let mut i: usize = 0;
    while i < ord.len()
        invariant
            i <= ord.len(),
            es == entries_view(children@),
            p == strings_view(path@),
            es.len() == children.len(),
            forall|j: int|
                0 <= j < children.len() ==> #[trigger] es[j] == (
                    children@[j].0@,
                    node_view(children@[j].1),
                ),
            ov == positions(ord@),
            forall|m: int| 0 <= m < ord.len() ==> #[trigger] ord@[m] < children.len(),
            funcs_view(acc@) == start + funcs_ordered(es, ov.take(i as int), p, lang@),
        decreases ord.len() - i,
    {
        let j = ord[i];
        proof {
            assert(ov.take(i + 1).drop_last() =~= ov.take(i as int));
            assert(ov.take(i + 1).last() == j as int);
        }
        let mut child_path = copy_strings(path);
        child_path.push(children[j].0.clone());
        proof {
            assert(strings_view(child_path@) =~= p.push(es[j as int].0));
        }
        collect_fns_rec(acc, &children[j].1, &child_path, lang);
        i += 1;
    }
    assert(ov.take(ord.len() as int) =~= ov);
}

/// The accessors of every leaf of one locale's tree, each branch's entries in lexical order
/// of their keys; fails when a leaf's
/// parameters cannot be rewritten safely.
pub fn generate_golang(tree: TranslationsTree, lang: &String) -> (r: Result<
    Vec<GolangGenerationFunc>,
    TrustlateError,
>)
    ensures
        match r {
            Ok(v) => renderable_entries(tree@) && funcs_view(v@) == entries_funcs(
                tree@,
                Seq::empty(),
                lang@,
            ),
            Err(e) => !renderable_entries(tree@) && e == TrustlateError::CodeGenFailed,
        },
{
    let mut gen: Vec<GolangGenerationFunc> = Vec::new();
    let root: Vec<String> = Vec::new();
    proof {
        assert(strings_view(root@) =~= Seq::<Seq<char>>::empty());
        assert(funcs_view(gen@) =~= Seq::<GoFuncView>::empty());
    }
    if !entries_renderable(&tree.children) {
        return Err(TrustlateError::CodeGenFailed);
    }
    collect_entries(&mut gen, &tree.children, &root, lang);
    Ok(gen)
}

} // verus!
