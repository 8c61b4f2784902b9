use vstd::prelude::*;

use crate::config::{CodegenTarget, Config};
use crate::error::TrustlateError;
use crate::golang::{
    entries_funcs, funcs_view, generate_golang, go_function, go_interface_entry, GoFuncView,
    GolangGenerationFunc,
};
use crate::text::{concat_all, lemma_concat_step, to_upper, upper_of};
use crate::tree::{first_index, lemma_first_index, strings_view, Entries, TranslationsTree};
use crate::typescript::{
    generate_typescript_index, genererate_typescript, renderable_entries, strs_view, ts_index,
    ts_module,
};

verus! {

/// The translation trees of the locales, each under its locale key.
pub open spec fn trees_view(ts: Seq<(String, TranslationsTree)>) -> Seq<(Seq<char>, Entries)> {
    ts.map_values(|e: (String, TranslationsTree)| (e.0@, e.1@))
}

/// Generated files, each a name and a content.
pub open spec fn artifacts_view(v: Seq<(String, String)>) -> Seq<(Seq<char>, Seq<char>)> {
    v.map_values(|a: (String, String)| (a.0@, a.1@))
}

/// Every locale of `ls` has a tree in `tv`.
pub open spec fn all_present(ls: Seq<Seq<char>>, tv: Seq<(Seq<char>, Entries)>) -> bool {
    forall|i: int| 0 <= i < ls.len() ==> #[trigger] first_index(tv, ls[i]) < tv.len()
}

/// The tree of locale `l`: the first one registered under its key.
pub open spec fn tree_of(tv: Seq<(Seq<char>, Entries)>, l: Seq<char>) -> Entries {
    tv[first_index(tv, l)].1
}

/// Every leaf of the trees of the locales `ls` can be rendered.
pub open spec fn all_renderable(ls: Seq<Seq<char>>, tv: Seq<(Seq<char>, Entries)>) -> bool {
    forall|i: int| 0 <= i < ls.len() ==> renderable_entries(#[trigger] tree_of(tv, ls[i]))
}

/// The files of the structural-object format: one module per locale, then the registry, which
/// lists the target locales and then the base locale.
pub open spec fn ts_artifacts(c: Config, tv: Seq<(Seq<char>, Entries)>) -> Seq<
    (Seq<char>, Seq<char>),
> {
    c.locales().map_values(|l: Seq<char>| (l + ".ts"@, ts_module(tree_of(tv, l)))).push(
        ("index.ts"@, ts_index(strings_view(c.target_langs@).push(c.base_lang@))),
    )
}

/// The accessors of locale `l`.
pub open spec fn locale_funcs(tv: Seq<(Seq<char>, Entries)>, l: Seq<char>) -> Seq<GoFuncView> {
    entries_funcs(tree_of(tv, l), Seq::empty(), l)
}

/// The shared interface, from the accessors of the base locale.
pub open spec fn go_interface(fs: Seq<GoFuncView>) -> Seq<char> {
    "type Trustlate interface {\n"@ + concat_all(
        fs.map_values(|f: GoFuncView| "    "@ + go_interface_entry(f) + "\n"@),
    ) + "}\n\n"@
}

/// The implementation type of one locale and its accessors.
pub open spec fn go_impl(l: Seq<char>, fs: Seq<GoFuncView>) -> Seq<char> {
    "type Trustlate"@ + upper_of(l) + " struct{}\n\n"@ + concat_all(
        fs.map_values(|f: GoFuncView| go_function(f) + "\n\n"@),
    )
}

/// The instance of one locale's implementation.
pub open spec fn go_var(l: Seq<char>) -> Seq<char> {
    "var trustlate"@ + upper_of(l) + " = Trustlate"@ + upper_of(l) + "{}\n"@
}

/// The branch of the factory that selects one locale.
pub open spec fn go_case(l: Seq<char>) -> Seq<char> {
    "    case \""@ + l + "\":\n      return &trustlate"@ + upper_of(l) + "\n"@
}

/// The single file of the interface-and-implementation format: the interface of the base
/// locale's accessors, an implementation per locale, and a factory that falls back to the
/// base locale for an unknown key.
pub open spec fn go_source(ls: Seq<Seq<char>>, tv: Seq<(Seq<char>, Entries)>) -> Seq<char> {
    "package trustlate\n\nimport \"fmt\"\n\n"@ + go_interface(locale_funcs(tv, ls[0]))
        + concat_all(ls.map_values(|l: Seq<char>| go_impl(l, locale_funcs(tv, l))))
        + concat_all(ls.map_values(|l: Seq<char>| go_var(l))) + "\n"@
        + "func GetTrustlate(lang string) Trustlate {\n    switch lang {\n"@
        + concat_all(ls.map_values(|l: Seq<char>| go_case(l))) + "    default:\n     return &trustlate"@
        + upper_of(ls[0]) + "\n   }\n}"@
}

/// The generated files for a configuration and the trees of its locales.
pub open spec fn artifacts(c: Config, tv: Seq<(Seq<char>, Entries)>) -> Result<
    Seq<(Seq<char>, Seq<char>)>,
    TrustlateError,
> {
    if !all_present(c.locales(), tv) {
        Err(TrustlateError::UnknownLocale)
    } else if !all_renderable(c.locales(), tv) {
        Err(TrustlateError::CodeGenFailed)
    } else {
        match c.codegen {
            CodegenTarget::Typescript => Ok(ts_artifacts(c, tv)),
            CodegenTarget::Go => Ok(seq![("trustlate.go"@, go_source(c.locales(), tv))]),
        }
    }
}

/// The position of the tree registered under `lang`.
fn find_tree(trees: &Vec<(String, TranslationsTree)>, lang: &String) -> (r: Option<usize>)
    ensures
        match r {
            Some(i) => i < trees.len() && i == first_index(trees_view(trees@), lang@),
            None => first_index(trees_view(trees@), lang@) == trees.len(),
        },
{
    let ghost tv = trees_view(trees@);
    proof {
        lemma_first_index(tv, lang@);
    }
    let mut i: usize = 0;
    while i < trees.len()
        invariant
            i <= trees.len(),
            tv == trees_view(trees@),
            forall|j: int| 0 <= j < i ==> tv[j].0 != lang@,
            0 <= first_index(tv, lang@) <= tv.len(),
            first_index(tv, lang@) < tv.len() ==> tv[first_index(tv, lang@)].0 == lang@,
            forall|j: int| 0 <= j < first_index(tv, lang@) ==> tv[j].0 != lang@,
        decreases trees.len() - i,
    {
        if trees[i].0 == *lang {
            assert(tv[i as int].0 == lang@);
            return Some(i);
        }
        assert(tv[i as int].0 != lang@);
        i += 1;
    }
    None
}

/// The positions of the trees of the locales `ls`, or the locale that has none.
fn resolve_trees(ls: &Vec<String>, trees: &Vec<(String, TranslationsTree)>) -> (r: Result<
    Vec<usize>,
    TrustlateError,
>)
    ensures
        match r {
            Ok(idx) => all_present(strings_view(ls@), trees_view(trees@)) && idx.len() == ls.len()
                && forall|i: int|
                0 <= i < ls.len() ==> #[trigger] idx@[i] == first_index(
                    trees_view(trees@),
                    ls@[i]@,
                ),
            Err(e) => !all_present(strings_view(ls@), trees_view(trees@)) && e
                == TrustlateError::UnknownLocale,
        },
{
    let ghost lv = strings_view(ls@);
    let mut idx: Vec<usize> = Vec::new();
    let mut i: usize = 0;
    while i < ls.len()
        invariant
            i <= ls.len(),
            lv == strings_view(ls@),
            idx.len() == i,
            forall|j: int|
                0 <= j < i ==> #[trigger] idx@[j] == first_index(trees_view(trees@), ls@[j]@)
                    && idx@[j] < trees.len(),
        decreases ls.len() - i,
    {
        match find_tree(trees, &ls[i]) {
            None => {
                assert(lv[i as int] == ls@[i as int]@);
                return Err(TrustlateError::UnknownLocale);
            },
            Some(k) => {
                idx.push(k);
            },
        }
        i += 1;
    }
    assert forall|j: int| 0 <= j < lv.len() implies #[trigger] first_index(
        trees_view(trees@),
        lv[j],
    ) < trees_view(trees@).len() by {
        assert(lv[j] == ls@[j]@);
        assert(idx@[j] < trees.len());
    }
    Ok(idx)
}

fn go_interface_block(fs: &Vec<GolangGenerationFunc>) -> (r: String)
    ensures
        r@ == go_interface(funcs_view(fs@)),
{
    let ghost parts = funcs_view(fs@).map_values(
        |f: GoFuncView| "    "@ + go_interface_entry(f) + "\n"@,
    );
    let mut body = String::new();
    let mut i: usize = 0;
    while i < fs.len()
        invariant
            i <= fs.len(),
            parts == funcs_view(fs@).map_values(
                |f: GoFuncView| "    "@ + go_interface_entry(f) + "\n"@,
            ),
            body@ == concat_all(parts.take(i as int)),
        decreases fs.len() - i,
    {
        proof {
            lemma_concat_step(parts, i as int);
        }
        body.append("    ");
        body.append(fs[i].interface_entry_form().as_str());
        body.append("\n");
        i += 1;
    }
    assert(parts.take(fs.len() as int) =~= parts);
    let mut s = "type Trustlate interface {\n".to_owned();
    s.append(body.as_str());
    s.append("}\n\n");
    s
}

fn go_impl_block(lang: &String, fs: &Vec<GolangGenerationFunc>) -> (r: String)
    ensures
        r@ == go_impl(lang@, funcs_view(fs@)),
{
    let ghost parts = funcs_view(fs@).map_values(|f: GoFuncView| go_function(f) + "\n\n"@);
    let mut s = "type Trustlate".to_owned();
    s.append(to_upper(lang.as_str()).as_str());
    s.append(" struct{}\n\n");
    let ghost head = s@;
    let mut i: usize = 0;
    while i < fs.len()
        invariant
            i <= fs.len(),
            parts == funcs_view(fs@).map_values(|f: GoFuncView| go_function(f) + "\n\n"@),
            s@ == head + concat_all(parts.take(i as int)),
        decreases fs.len() - i,
    {
        proof {
            lemma_concat_step(parts, i as int);
        }
        s.append(fs[i].function_form().as_str());
        s.append("\n\n");
        i += 1;
    }
    assert(parts.take(fs.len() as int) =~= parts);
    s
}

fn go_vars_and_cases(ls: &Vec<String>) -> (r: (String, String))
    ensures
        r.0@ == concat_all(strings_view(ls@).map_values(|l: Seq<char>| go_var(l))),
        r.1@ == concat_all(strings_view(ls@).map_values(|l: Seq<char>| go_case(l))),
{
    let ghost vars = strings_view(ls@).map_values(|l: Seq<char>| go_var(l));
    let ghost cases = strings_view(ls@).map_values(|l: Seq<char>| go_case(l));
    let mut a = String::new();
    let mut b = String::new();
    let mut i: usize = 0;
    while i < ls.len()
        invariant
            i <= ls.len(),
            vars == strings_view(ls@).map_values(|l: Seq<char>| go_var(l)),
            cases == strings_view(ls@).map_values(|l: Seq<char>| go_case(l)),
            a@ == concat_all(vars.take(i as int)),
            b@ == concat_all(cases.take(i as int)),
        decreases ls.len() - i,
    {
        proof {
            lemma_concat_step(vars, i as int);
            lemma_concat_step(cases, i as int);
        }
        let up = to_upper(ls[i].as_str());
        a.append("var trustlate");
        a.append(up.as_str());
        a.append(" = Trustlate");
        a.append(up.as_str());
        a.append("{}\n");
        b.append("    case \"");
        b.append(ls[i].as_str());
        b.append("\":\n      return &trustlate");
        b.append(up.as_str());
        b.append("\n");
        i += 1;
    }
    assert(vars.take(ls.len() as int) =~= vars);
    assert(cases.take(ls.len() as int) =~= cases);
    (a, b)
}

proof fn lemma_some_unrenderable(ls: Seq<Seq<char>>, tv: Seq<(Seq<char>, Entries)>, i: int)
    requires
        0 <= i < ls.len(),
        !renderable_entries(tree_of(tv, ls[i])),
    ensures
        !all_renderable(ls, tv),
{
}

/// Renders the files of the configured format for the base locale and the target locales;
/// fails when a locale has no tree or a leaf cannot be rendered.
pub fn generate_code(config: &Config, trees: &Vec<(String, TranslationsTree)>) -> (r: Result<
    Vec<(String, String)>,
    TrustlateError,
>)
    ensures
        match artifacts(*config, trees_view(trees@)) {
            Ok(a) => r matches Ok(v) && artifacts_view(v@) == a,
            Err(e) => r matches Err(x) && x == e,
        },
{
    let ls = config.all_locales();
    let ghost lv = strings_view(ls@);
    let ghost tv = trees_view(trees@);
    let idx = resolve_trees(&ls, trees)?;
    match config.codegen {
        CodegenTarget::Typescript => {
            let ghost mods = lv.map_values(|l: Seq<char>| (l + ".ts"@, ts_module(tree_of(tv, l))));
            let mut out: Vec<(String, String)> = Vec::new();
            let mut i: usize = 0;
            while i < ls.len()
                invariant
                    i <= ls.len(),
                    lv == strings_view(ls@),
                    lv == config.locales(),
                    tv == trees_view(trees@),
                    all_present(lv, tv),
                    idx.len() == ls.len(),
                    forall|j: int| 0 <= j < ls.len() ==> #[trigger] idx@[j] == first_index(tv, ls@[j]@),
                    mods == lv.map_values(|l: Seq<char>| (l + ".ts"@, ts_module(tree_of(tv, l)))),
                    forall|j: int| 0 <= j < i ==> renderable_entries(#[trigger] tree_of(tv, lv[j])),
                    out.len() == i,
                    forall|j: int| 0 <= j < i ==> (#[trigger] out@[j].0@, out@[j].1@) == mods[j],
                decreases ls.len() - i,
            {
                proof {
                    assert(lv[i as int] == ls@[i as int]@);
                    assert(first_index(tv, lv[i as int]) < tv.len());
                    assert(trees@[idx@[i as int] as int].1@ == tree_of(tv, lv[i as int]));
                }
                match genererate_typescript(&trees[idx[i]].1) {
                    Err(e) => {
                        proof {
                            lemma_some_unrenderable(lv, tv, i as int);
                        }
                        return Err(e);
                    },
                    Ok(code) => {
                        let mut name = ls[i].clone();
                        name.append(".ts");
                        out.push((name, code));
                    },
                }
                i += 1;
            }
            let mut langs: Vec<&str> = Vec::new();
            let mut j: usize = 0;
            while j < config.target_langs.len()
                invariant
                    j <= config.target_langs.len(),
                    langs.len() == j,
                    forall|m: int| 0 <= m < j ==> #[trigger] langs@[m]@ == config.target_langs@[m]@,
                decreases config.target_langs.len() - j,
            {
                langs.push(config.target_langs[j].as_str());
                j += 1;
            }
            langs.push(config.base_lang.as_str());
            assert(strs_view(langs@) =~= strings_view(config.target_langs@).push(
                config.base_lang@,
            ));
            let index = generate_typescript_index(langs.as_slice());
            let ghost before = out@;
            out.push(("index.ts".to_owned(), index));
            proof {
                assert(artifacts_view(before) =~= mods);
                assert(artifacts_view(out@) =~= ts_artifacts(*config, tv));
            }
            Ok(out)
        },
        CodegenTarget::Go => {
            let mut content = "package trustlate\n\nimport \"fmt\"\n\n".to_owned();
            proof {
                assert(lv[0] == ls@[0]@);
                assert(first_index(tv, lv[0]) < tv.len());
                assert(trees@[idx@[0] as int].1@ == tree_of(tv, lv[0]));
            }
            let base_funcs = match generate_golang(trees[idx[0]].1.duplicate(), &ls[0]) {
                Err(e) => {
                    proof {
                        lemma_some_unrenderable(lv, tv, 0);
                    }
                    return Err(e);
                },
                Ok(v) => v,
            };
            content.append(go_interface_block(&base_funcs).as_str());
            let ghost head = content@;
            let ghost impls = lv.map_values(|l: Seq<char>| go_impl(l, locale_funcs(tv, l)));
            let mut i: usize = 0;
            while i < ls.len()
                invariant
                    i <= ls.len(),
                    lv == strings_view(ls@),
                    lv == config.locales(),
                    tv == trees_view(trees@),
                    all_present(lv, tv),
                    idx.len() == ls.len(),
                    forall|j: int| 0 <= j < ls.len() ==> #[trigger] idx@[j] == first_index(tv, ls@[j]@),
                    impls == lv.map_values(|l: Seq<char>| go_impl(l, locale_funcs(tv, l))),
                    forall|j: int| 0 <= j < i ==> renderable_entries(#[trigger] tree_of(tv, lv[j])),
                    content@ == head + concat_all(impls.take(i as int)),
                decreases ls.len() - i,
            {
                proof {
                    lemma_concat_step(impls, i as int);
                    assert(lv[i as int] == ls@[i as int]@);
                    assert(first_index(tv, lv[i as int]) < tv.len());
                    assert(trees@[idx@[i as int] as int].1@ == tree_of(tv, lv[i as int]));
                }
                match generate_golang(trees[idx[i]].1.duplicate(), &ls[i]) {
                    Err(e) => {
                        proof {
                            lemma_some_unrenderable(lv, tv, i as int);
                        }
                        return Err(e);
                    },
                    Ok(fs) => {
                        content.append(go_impl_block(&ls[i], &fs).as_str());
                    },
                }
                i += 1;
            }
            proof {
                assert(impls.take(ls.len() as int) =~= impls);
            }
            let (vars, cases) = go_vars_and_cases(&ls);
            content.append(vars.as_str());
            content.append("\n");
            content.append("func GetTrustlate(lang string) Trustlate {\n    switch lang {\n");
            content.append(cases.as_str());
            content.append("    default:\n     return &trustlate");
            content.append(to_upper(ls[0].as_str()).as_str());
            content.append("\n   }\n}");
            let mut out: Vec<(String, String)> = Vec::new();
            out.push(("trustlate.go".to_owned(), content));
            assert(artifacts_view(out@) =~= seq![("trustlate.go"@, go_source(lv, tv))]);
            Ok(out)
        },
    }
}

} // verus!
