use vstd::prelude::*;

use crate::error::TrustlateError;
use crate::order::{positions, sort_order, sorted_positions};
use crate::placeholder::{
    placeholder_gaps, placeholder_names, placeholder_occurrences, placeholder_pieces,
    renderable_leaf, leaf_is_renderable,
};
use crate::text::{
    concat_all, join, join_strings, lemma_concat_step, lemma_join_step, to_upper, upper_of, weave,
    weave_template,
};
use crate::tree::{
    entries_view, lemma_entries_view, node_view, strings_view, Entries, LeafType, LeafView,
    NodeView, TranslationTreeNode, TranslationsTree,
};

verus! {

/// Each text of `v` between `pre` and `post`.
pub open spec fn wrapped(v: Seq<Seq<char>>, pre: Seq<char>, post: Seq<char>) -> Seq<Seq<char>> {
    v.map_values(|s: Seq<char>| pre + s + post)
}

/// Each text of `v` between `pre` and `post`.
pub fn wrap_each(v: &Vec<String>, pre: &str, post: &str) -> (r: Vec<String>)
    ensures
        strings_view(r@) == wrapped(strings_view(v@), pre@, post@),
{
    let mut out: Vec<String> = Vec::new();
    let mut i: usize = 0;
    while i < v.len()
        invariant
            i <= v.len(),
            out.len() == i,
            forall|j: int| 0 <= j < i ==> #[trigger] out@[j]@ == pre@ + v@[j]@ + post@,
        decreases v.len() - i,
    {
        let mut s = pre.to_owned();
        s.append(v[i].as_str());
        s.append(post);
        out.push(s);
        i += 1;
    }
    assert(strings_view(out@) =~= wrapped(strings_view(v@), pre@, post@));
    out
}

/// A leaf in the structural-object format: a literal as quoted text; a parametrized leaf as an
/// arrow function of one text parameter per parameter name, returning a template literal with
/// each placeholder turned into an interpolation of its name.
pub open spec fn ts_leaf(l: LeafView) -> Seq<char> {
    match l {
        LeafView::Literal(t) => "\""@ + t + "\""@,
        LeafView::Parametrized { parameters, raw } => "("@ + join(
            wrapped(parameters, Seq::empty(), ":string"@),
            ","@,
        ) + ")=>`"@ + weave(
            placeholder_gaps(raw),
            wrapped(placeholder_names(raw), "${"@, "}"@),
        ) + "`"@,
    }
}

/// An entry in the structural-object format: its key, then its leaf or its nested object,
/// whose entries come in lexical order of their keys.
pub open spec fn ts_node(k: Seq<char>, n: NodeView) -> Seq<char>
    decreases n, 0nat,
{
    match n {
        NodeView::Leaf(l) => k + ":"@ + ts_leaf(l),
        NodeView::Branch(es) => k + ":{"@ + ts_ordered(es, sort_order(es)) + "}"@,
    }
}

/// The entries at positions `ord` in the structural-object format, in that order, separated
/// by commas.
pub open spec fn ts_ordered(es: Entries, ord: Seq<int>) -> Seq<char>
    decreases es, ord.len(),
{
    if ord.len() == 0 {
        Seq::empty()
    } else {
        let j = ord.last();
        let piece = if 0 <= j < es.len() {
            ts_node(es[j].0, es[j].1)
        } else {
            Seq::empty()
        };
        if ord.len() == 1 {
            piece
        } else {
            ts_ordered(es, ord.drop_last()) + ","@ + piece
        }
    }
}

/// The entries of a branch in the structural-object format, in lexical order of their keys,
/// separated by commas.
pub open spec fn ts_entries(es: Entries) -> Seq<char> {
    ts_ordered(es, sort_order(es))
}

/// Every leaf beneath a node can be rendered.
pub open spec fn renderable_node(n: NodeView) -> bool
    decreases n,
{
    match n {
        NodeView::Leaf(l) => renderable_leaf(l),
        NodeView::Branch(es) => renderable_entries(es),
    }
}

/// Every leaf beneath the entries can be rendered.
pub open spec fn renderable_entries(es: Entries) -> bool
    decreases es,
{
    if es.len() == 0 {
        true
    } else {
        renderable_entries(es.drop_last()) && renderable_node(es.last().1)
    }
}

/// The whole translation module of one locale in the structural-object format.
pub open spec fn ts_module(es: Entries) -> Seq<char> {
    "export const trustlate="@ + "{"@ + ts_entries(es) + "}"@ + "as const;"@
}

/// Renders a leaf in the structural-object format.
pub fn ts_leaf_code(l: &LeafType) -> (r: String)
    ensures
        r@ == ts_leaf(l@),
{
    match l {
        LeafType::LiteralLeaf(t) => {
            let mut s = "\"".to_owned();
            s.append(t.as_str());
            s.append("\"");
            s
        },
        LeafType::ParametrizedLeaf { parameters, raw } => {
            let args = join_strings(&wrap_each(parameters, "", ":string"), ",");
            let names = placeholder_occurrences(raw.as_str());
            let gaps = placeholder_pieces(raw.as_str());
            let body = weave_template(&gaps, &wrap_each(&names, "${", "}"));
            let mut s = "(".to_owned();
            s.append(args.as_str());
            s.append(")=>`");
            s.append(body.as_str());
            s.append("`");
            proof {
                reveal_strlit("");
                assert(""@ =~= Seq::<char>::empty());
                assert(wrapped(strings_view(parameters@), ""@, ":string"@) =~= wrapped(
                    strings_view(parameters@),
                    Seq::empty(),
                    ":string"@,
                ));
            }
            s
        },
    }
}

/// Whether every leaf beneath a node can be rendered.
pub fn node_renderable(n: &TranslationTreeNode) -> (r: bool)
    ensures
        r == renderable_node(n@),
    decreases n,
{
    match n {
        TranslationTreeNode::Leaf(l) => leaf_is_renderable(l),
        TranslationTreeNode::NonLeaf(children) => entries_renderable(children),
    }
}

/// Whether every leaf beneath the children can be rendered.
pub fn entries_renderable(children: &Vec<(String, TranslationTreeNode)>) -> (r: bool)
    ensures
        r == renderable_entries(entries_view(children@)),
    decreases children,
{
    let ghost es = entries_view(children@);
    proof {
        lemma_entries_view(children@);
    }
    let mut i: usize = 0;
    while i < children.len()
        invariant
            i <= children.len(),
            es == entries_view(children@),
            es.len() == children.len(),
            forall|j: int|
                0 <= j < children.len() ==> #[trigger] es[j] == (
                    children@[j].0@,
                    node_view(children@[j].1),
                ),
            renderable_entries(es.take(i as int)),
        decreases children.len() - i,
    {
        proof {
            assert(es.take(i + 1).drop_last() =~= es.take(i as int));
            assert(es.take(i + 1).last() == es[i as int]);
        }
        if !node_renderable(&children[i].1) {
            proof {
                lemma_renderable_prefix(es, i + 1);
            }
            return false;
        }
        i += 1;
    }
    assert(es.take(children.len() as int) =~= es);
    true
}

/// Renders one entry, key and node, in the structural-object format.
pub fn ts_node_code(key: &String, curr_node: &TranslationTreeNode) -> (r: String)
    ensures
        r@ == ts_node(key@, curr_node@),
    decreases curr_node,
{
    let mut s = key.clone();
    match curr_node {
        TranslationTreeNode::Leaf(value) => {
            s.append(":");
            s.append(ts_leaf_code(value).as_str());
        },
        TranslationTreeNode::NonLeaf(children) => {
            s.append(":{");
            s.append(ts_entries_code(children).as_str());
            s.append("}");
        },
    }
    s
}

/// Renders the entries of a branch in lexical order of their keys, separated by commas.
fn ts_entries_code(children: &Vec<(String, TranslationTreeNode)>) -> (r: String)
    ensures
        r@ == ts_entries(entries_view(children@)),
    decreases children,
{
    let ghost es = entries_view(children@);
    proof {
        lemma_entries_view(children@);
    }
    let ord = sorted_positions(children);
    let ghost ov = positions(ord@);
    let mut out = String::new();
    let mut i: usize = 0;
    while i < ord.len()
        invariant
            i <= ord.len(),
            es == entries_view(children@),
            es.len() == children.len(),
            forall|j: int|
                0 <= j < children.len() ==> #[trigger] es[j] == (
                    children@[j].0@,
                    node_view(children@[j].1),
                ),
            ov == positions(ord@),
            forall|m: int| 0 <= m < ord.len() ==> #[trigger] ord@[m] < children.len(),
            out@ == ts_ordered(es, ov.take(i as int)),
        decreases ord.len() - i,
    {
        let j = ord[i];
        proof {
            assert(ov.take(i + 1).drop_last() =~= ov.take(i as int));
            assert(ov.take(i + 1).last() == j as int);
        }
        let piece = ts_node_code(&children[j].0, &children[j].1);
        if i > 0 {
            out.append(",");
        }
        out.append(piece.as_str());
        i += 1;
    }
    assert(ov.take(ord.len() as int) =~= ov);
    out
}

/// Renders one entry, key and node, in the structural-object format; fails when a leaf's
/// parameters cannot be rewritten safely.
pub fn generate_typescript_rec(key: &String, curr_node: &TranslationTreeNode) -> (r: Result<
    String,
    TrustlateError,
>)
    ensures
        match r {
            Ok(s) => renderable_node(curr_node@) && s@ == ts_node(key@, curr_node@),
            Err(e) => !renderable_node(curr_node@) && e == TrustlateError::CodeGenFailed,
        },
{
    if !node_renderable(curr_node) {
        return Err(TrustlateError::CodeGenFailed);
    }
    Ok(ts_node_code(key, curr_node))
}

/// Entries that can all be rendered have every prefix renderable.
pub proof fn lemma_renderable_prefix(es: Entries, n: int)
    requires
        0 <= n <= es.len(),
        !renderable_entries(es.take(n)),
    ensures
        !renderable_entries(es),
    decreases es.len() - n,
{
    if n < es.len() {
        assert(es.take(n + 1).drop_last() =~= es.take(n));
        lemma_renderable_prefix(es, n + 1);
    } else {
        assert(es.take(n) =~= es);
    }
}

/// Renders the translation module of one locale in the structural-object format, each
/// branch's entries in lexical order of their keys; fails when a leaf's parameters cannot be
/// rewritten safely.
pub fn genererate_typescript(tree: &TranslationsTree) -> (r: Result<String, TrustlateError>)
    ensures
        match r {
            Ok(s) => renderable_entries(tree@) && s@ == ts_module(tree@),
            Err(e) => !renderable_entries(tree@) && e == TrustlateError::CodeGenFailed,
        },
{
    if !entries_renderable(&tree.children) {
        return Err(TrustlateError::CodeGenFailed);
    }
    let inner = ts_entries_code(&tree.children);
    let mut s = "export const trustlate=".to_owned();
    s.append("{");
    s.append(inner.as_str());
    s.append("}");
    s.append("as const;");
    Ok(s)
}

/// The import of one locale's module in the registry module.
pub open spec fn ts_import(l: Seq<char>) -> Seq<char> {
    "import { trustlate as Translations"@ + upper_of(l) + " } from \"./"@ + l + "\";\n"@
}

/// One locale in the list of locale keys.
pub open spec fn ts_locale(l: Seq<char>) -> Seq<char> {
    "'"@ + l + "', "@
}

/// One locale in the table of translation objects.
pub open spec fn ts_table_row(l: Seq<char>) -> Seq<char> {
    "\t\""@ + l + "\": Translations"@ + upper_of(l) + ",\n"@
}

/// The registry module: it imports every locale's module, defines the closed set of locale
/// keys, and looks a locale's translation object up by its key.
pub open spec fn ts_index(langs: Seq<Seq<char>>) -> Seq<char> {
    concat_all(langs.map_values(|l: Seq<char>| ts_import(l))) + "\n"@ + "export const locales = ["@
        + concat_all(langs.map_values(|l: Seq<char>| ts_locale(l))) + "] as const;"@
        + "\nexport type Locale = typeof locales[number];\n\n"@ + "const translations = {\n"@
        + concat_all(langs.map_values(|l: Seq<char>| ts_table_row(l))) + "} as const;"@
        + "\n\nexport function trustlate(lang: keyof typeof translations) { return translations[lang] }"@
}

/// The texts of a list of string slices.
pub open spec fn strs_view(v: Seq<&str>) -> Seq<Seq<char>> {
    v.map_values(|s: &str| s@)
}

/// Renders the registry module for the locales `langs`.
pub fn generate_typescript_index(langs: &[&str]) -> (r: String)
    ensures
        r@ == ts_index(strs_view(langs@)),
{
    let ghost ls = strs_view(langs@);
    let ghost imports = ls.map_values(|l: Seq<char>| ts_import(l));
    let ghost locales = ls.map_values(|l: Seq<char>| ts_locale(l));
    let ghost rows = ls.map_values(|l: Seq<char>| ts_table_row(l));
    let mut a = String::new();
    let mut b = String::new();
    let mut c = String::new();
    let mut i: usize = 0;
    while i < langs.len()
        invariant
            i <= langs.len(),
            ls == strs_view(langs@),
            imports == ls.map_values(|l: Seq<char>| ts_import(l)),
            locales == ls.map_values(|l: Seq<char>| ts_locale(l)),
            rows == ls.map_values(|l: Seq<char>| ts_table_row(l)),
            a@ == concat_all(imports.take(i as int)),
            b@ == concat_all(locales.take(i as int)),
            c@ == concat_all(rows.take(i as int)),
        decreases langs.len() - i,
    {
        proof {
            lemma_concat_step(imports, i as int);
            lemma_concat_step(locales, i as int);
            lemma_concat_step(rows, i as int);
        }
        let l: &str = langs[i];
        let up = to_upper(l);
        a.append("import { trustlate as Translations");
        a.append(up.as_str());
        a.append(" } from \"./");
        a.append(l);
        a.append("\";\n");
        b.append("'");
        b.append(l);
        b.append("', ");
        c.append("\t\"");
        c.append(l);
        c.append("\": Translations");
        c.append(up.as_str());
        c.append(",\n");
        i += 1;
    }
    proof {
        assert(imports.take(langs.len() as int) =~= imports);
        assert(locales.take(langs.len() as int) =~= locales);
        assert(rows.take(langs.len() as int) =~= rows);
    }
    let mut s = a;
    s.append("\n");
    s.append("export const locales = [");
    s.append(b.as_str());
    s.append("] as const;");
    s.append("\nexport type Locale = typeof locales[number];\n\n");
    s.append("const translations = {\n");
    s.append(c.as_str());
    s.append("} as const;");
    s.append(
        "\n\nexport function trustlate(lang: keyof typeof translations) { return translations[lang] }",
    );
    s
}

} // verus!
