use vstd::prelude::*;

use crate::error::TrustlateError;
use crate::tree::{contains_string, copy_strings, strings_view};

verus! {

/// The code format to emit.
#[derive(Debug, Clone, Copy, PartialEq, Eq, Structural)]
pub enum CodegenTarget {
    /// One structural object per locale, and a registry module.
    Typescript,
    /// A shared interface, one implementation per locale, and a locale-keyed factory.
    Go,
}

impl Default for CodegenTarget {
    fn default() -> (r: Self)
        ensures
            r == CodegenTarget::Typescript,
    {
        CodegenTarget::Typescript
    }
}

/// The settings of a run: the base locale, the target locales, the code format, and where
/// translations are read and code is written.
#[derive(Debug, Clone, PartialEq, Eq)]
pub struct Config {
    pub base_lang: String,
    pub target_langs: Vec<String>,
    pub codegen: CodegenTarget,
    pub source_dir: String,
    pub target_dir: String,
}

impl Default for Config {
    fn default() -> (r: Self)
        ensures
            r.base_lang@ == "es"@,
            strings_view(r.target_langs@) == seq!["kr"@, "en"@],
            r.codegen == CodegenTarget::Typescript,
            r.source_dir@ == "./trustlate/translations/"@,
            r.target_dir@ == "./trustlate/codegens/"@,
    {
        let mut target_langs: Vec<String> = Vec::new();
        target_langs.push("kr".to_owned());
        target_langs.push("en".to_owned());
        assert(strings_view(target_langs@) =~= seq!["kr"@, "en"@]);
        Config {
            base_lang: "es".to_owned(),
            target_langs,
            codegen: CodegenTarget::Typescript,
            source_dir: "./trustlate/translations/".to_owned(),
            target_dir: "./trustlate/codegens/".to_owned(),
        }
    }
}

impl Config {
    /// The base locale followed by the target locales.
    pub open spec fn locales(&self) -> Seq<Seq<char>> {
        seq![self.base_lang@] + strings_view(self.target_langs@)
    }

    /// The base locale followed by the target locales.
    pub fn all_locales(&self) -> (r: Vec<String>)
        ensures
            strings_view(r@) == self.locales(),
    {
        let mut r: Vec<String> = Vec::new();
        r.push(self.base_lang.clone());
        let mut targets = copy_strings(&self.target_langs);
        r.append(&mut targets);
        assert(strings_view(r@) =~= self.locales());
        r
    }
}

/// No locale occurs twice in `ls`.
pub open spec fn distinct_locales(ls: Seq<Seq<char>>) -> bool {
    forall|i: int, j: int| 0 <= i < j < ls.len() ==> ls[i] != ls[j]
}

impl Config {
    /// Fails when a locale is named twice among the base and target locales.
    pub fn check_locales(&self) -> (r: Result<(), TrustlateError>)
        ensures
            r is Ok <==> distinct_locales(self.locales()),
            r is Err ==> r == Err::<(), TrustlateError>(TrustlateError::RepeatedLocale),
    {
        let ls = self.all_locales();
        let ghost lv = strings_view(ls@);
        let mut seen: Vec<String> = Vec::new();
        let mut i: usize = 0;
        while i < ls.len()
            invariant
                i <= ls.len(),
                lv == strings_view(ls@),
                lv == self.locales(),
                strings_view(seen@) == lv.take(i as int),
                distinct_locales(lv.take(i as int)),
            decreases ls.len() - i,
        {
            if contains_string(&seen, &ls[i]) {
                proof {
                    let k = choose|k: int| 0 <= k < i && lv.take(i as int)[k] == lv[i as int];
                    assert(lv[k] == lv[i as int]);
                }
                return Err(TrustlateError::RepeatedLocale);
            }
            seen.push(ls[i].clone());
            proof {
                assert(strings_view(seen@) =~= lv.take(i + 1));
                let t = lv.take(i + 1);
                assert forall|a: int, b: int| 0 <= a < b < t.len() implies t[a] != t[b] by {
                    if b == i {
                        assert(lv.take(i as int)[a] == lv[a]);
                    } else {
                        assert(lv.take(i as int)[a] == lv[a]);
                        assert(lv.take(i as int)[b] == lv[b]);
                    }
                }
            }
            i += 1;
        }
        assert(lv.take(ls.len() as int) =~= lv);
        Ok(())
    }
}

/// Read access to the locales of a configuration.
pub struct Parser<'a> {
    config: &'a Config,
}

impl<'a> Parser<'a> {
    pub closed spec fn config(&self) -> &'a Config {
        self.config
    }

    pub fn from_config(config: &'a Config) -> (r: Self)
        ensures
            r.config() == config,
    {
        Self { config }
    }

    pub fn base_lang(&self) -> (r: &str)
        ensures
            r@ == self.config().base_lang@,
    {
        self.config.base_lang.as_str()
    }

    pub fn target_languages(&self) -> (r: &Vec<String>)
        ensures
            r == &self.config().target_langs,
    {
        &self.config.target_langs
    }
}

} // verus!
