use trustlate::codegen::generate_code;
use trustlate::config::{CodegenTarget, Config, Parser};
use trustlate::order::key_before;
use trustlate::error::TrustlateError;
use trustlate::golang::{generate_golang, make_function_name, make_receiver_name};
use trustlate::placeholder::{names_declared, placeholder_occurrences, placeholder_pieces};
use trustlate::text::{capitalize_first_letter, check_identifier, to_upper, weave_template};
use trustlate::tree::{LeafType, TranslationTreeNode, TranslationsTree};
use trustlate::typescript::{generate_typescript_index, generate_typescript_rec, genererate_typescript};

fn leaf(t: &str) -> TranslationTreeNode {
    TranslationTreeNode::Leaf(LeafType::from_text(t.to_string()))
}

fn branch(es: Vec<(&str, TranslationTreeNode)>) -> TranslationTreeNode {
    TranslationTreeNode::NonLeaf(es.into_iter().map(|(k, v)| (k.to_string(), v)).collect())
}

fn tree(es: Vec<(&str, TranslationTreeNode)>) -> TranslationsTree {
    TranslationsTree { children: es.into_iter().map(|(k, v)| (k.to_string(), v)).collect() }
}

fn strings(v: &[&str]) -> Vec<String> {
    v.iter().map(|s| s.to_string()).collect()
}

fn config(base: &str, targets: &[&str], codegen: CodegenTarget) -> Config {
    Config {
        base_lang: base.to_string(),
        target_langs: strings(targets),
        codegen,
        source_dir: "src".to_string(),
        target_dir: "out".to_string(),
    }
}

const GREET_GO: &str = "func (trl *TrustlateEN) Greet(name string) string {\n   return fmt.Sprintf(\"Hello %s\", name)\n}";

#[test]
fn emission_scenario_structural_object() {
    let t = tree(vec![("greet", leaf("Hello {{name}}"))]);
    assert_eq!(
        genererate_typescript(&t),
        Ok("export const trustlate={greet:(name:string)=>`Hello ${name}`}as const;".to_string())
    );
}

#[test]
fn emission_scenario_interface() {
    let t = tree(vec![("greet", leaf("Hello {{name}}"))]);
    let fns = generate_golang(t.duplicate(), &"en".to_string()).unwrap();
    assert_eq!(fns.len(), 1);
    assert_eq!(fns[0].interface_entry_form(), "Greet(name string) string");
    assert_eq!(fns[0].function_form(), GREET_GO);
}

#[test]
fn emission_scenario_go_file() {
    let c = config("en", &[], CodegenTarget::Go);
    let trees = vec![("en".to_string(), tree(vec![("greet", leaf("Hello {{name}}"))]))];
    let expected = format!(
        "package trustlate\n\nimport \"fmt\"\n\ntype Trustlate interface {{\n    Greet(name string) string\n}}\n\ntype TrustlateEN struct{{}}\n\n{}\n\nvar trustlateEN = TrustlateEN{{}}\n\nfunc GetTrustlate(lang string) Trustlate {{\n    switch lang {{\n    case \"en\":\n      return &trustlateEN\n    default:\n     return &trustlateEN\n   }}\n}}",
        GREET_GO
    );
    assert_eq!(generate_code(&c, &trees), Ok(vec![("trustlate.go".to_string(), expected)]));
}

#[test]
fn go_file_has_one_implementation_per_locale() {
    let c = config("en", &["es"], CodegenTarget::Go);
    let trees = vec![
        ("es".to_string(), tree(vec![("bye", leaf("Adios"))])),
        ("en".to_string(), tree(vec![("bye", leaf("Bye"))])),
    ];
    let out = generate_code(&c, &trees).unwrap();
    let text = &out[0].1;
    assert!(text.contains("type Trustlate interface {\n    Bye() string\n}\n\n"));
    assert!(text.contains("func (trl *TrustlateEN) Bye() string {\n   return \"Bye\"\n}"));
    assert!(text.contains("func (trl *TrustlateES) Bye() string {\n   return \"Adios\"\n}"));
    assert!(text.contains("    case \"es\":\n      return &trustlateES\n"));
    assert!(text.ends_with("    default:\n     return &trustlateEN\n   }\n}"));
}

#[test]
fn nested_structural_object() {
    let n = branch(vec![("hello", leaf("Hi")), ("bye", leaf("Bye {{who}} {{when}}"))]);
    assert_eq!(
        generate_typescript_rec(&"a".to_string(), &n),
        Ok("a:{bye:(who:string,when:string)=>`Bye ${who} ${when}`,hello:\"Hi\"}".to_string())
    );
}

#[test]
fn typescript_files_and_registry() {
    let c = config("es", &["en"], CodegenTarget::Typescript);
    let trees = vec![
        ("en".to_string(), tree(vec![("hi", leaf("Hi"))])),
        ("es".to_string(), tree(vec![("hi", leaf("Hola"))])),
    ];
    let out = generate_code(&c, &trees).unwrap();
    assert_eq!(out.len(), 3);
    assert_eq!(out[0], ("es.ts".to_string(), "export const trustlate={hi:\"Hola\"}as const;".to_string()));
    assert_eq!(out[1], ("en.ts".to_string(), "export const trustlate={hi:\"Hi\"}as const;".to_string()));
    assert_eq!(out[2].0, "index.ts");
    assert_eq!(out[2].1, generate_typescript_index(&["en", "es"]));
}

#[test]
fn typescript_registry_text() {
    let expected = "import { trustlate as TranslationsEN } from \"./en\";\nimport { trustlate as TranslationsES } from \"./es\";\n\nexport const locales = ['en', 'es', ] as const;\nexport type Locale = typeof locales[number];\n\nconst translations = {\n\t\"en\": TranslationsEN,\n\t\"es\": TranslationsES,\n} as const;\n\nexport function trustlate(lang: keyof typeof translations) { return translations[lang] }";
    assert_eq!(generate_typescript_index(&["en", "es"]), expected);
}

#[test]
fn unknown_locale_fails_generation() {
    let c = config("es", &["en"], CodegenTarget::Typescript);
    let trees = vec![("es".to_string(), tree(vec![]))];
    assert_eq!(generate_code(&c, &trees), Err(TrustlateError::UnknownLocale));
}

#[test]
fn illegal_parameter_name_fails_generation() {
    let t = tree(vec![("a", leaf("Hi {{first name}}"))]);
    assert_eq!(genererate_typescript(&t), Err(TrustlateError::CodeGenFailed));
    assert_eq!(generate_golang(t.duplicate(), &"en".to_string()), Err(TrustlateError::CodeGenFailed));
    let c = config("en", &[], CodegenTarget::Go);
    let trees = vec![("en".to_string(), t)];
    assert_eq!(generate_code(&c, &trees), Err(TrustlateError::CodeGenFailed));
}

#[test]
fn undeclared_placeholder_fails_generation() {
    let l = LeafType::ParametrizedLeaf { parameters: strings(&["a"]), raw: "{{a}} {{b}}".to_string() };
    let t = TranslationsTree { children: vec![("k".to_string(), TranslationTreeNode::Leaf(l))] };
    assert_eq!(genererate_typescript(&t), Err(TrustlateError::CodeGenFailed));
}

#[test]
fn function_names_capitalize_each_key() {
    assert_eq!(make_function_name(&strings(&["a", "hello", "world"])), "AHelloWorld");
    assert_eq!(make_receiver_name(&"kr".to_string()), "TrustlateKR");
}

#[test]
fn outside_text_helpers() {
    assert_eq!(to_upper("en"), "EN");
    assert_eq!(capitalize_first_letter("greet"), "Greet");
    assert_eq!(capitalize_first_letter(""), "");
    assert_eq!(placeholder_occurrences("a {{x}} b {{y}}{{x}}"), strings(&["x", "y", "x"]));
    assert_eq!(placeholder_pieces("a {{x}} b"), strings(&["a ", " b"]));
    assert_eq!(placeholder_pieces("plain"), strings(&["plain"]));
}

#[test]
fn weave_fills_placeholders() {
    assert_eq!(weave_template(&strings(&["a ", " b ", ""]), &strings(&["1", "2"])), "a 1 b 2");
    assert_eq!(weave_template(&strings(&["x"]), &strings(&[])), "x");
}

#[test]
fn identifiers() {
    assert!(check_identifier("name_1"));
    assert!(check_identifier("_x"));
    assert!(!check_identifier("1x"));
    assert!(!check_identifier("first name"));
    assert!(!check_identifier(""));
}

#[test]
fn repeated_locale_is_rejected() {
    assert_eq!(config("es", &["en", "kr"], CodegenTarget::Go).check_locales(), Ok(()));
    assert_eq!(
        config("es", &["en", "es"], CodegenTarget::Go).check_locales(),
        Err(TrustlateError::RepeatedLocale)
    );
}

#[test]
fn default_config_and_parser() {
    let c = Config::default();
    assert_eq!(c.base_lang, "es");
    assert_eq!(c.target_langs, strings(&["kr", "en"]));
    assert_eq!(c.codegen, CodegenTarget::Typescript);
    let p = Parser::from_config(&c);
    assert_eq!(p.base_lang(), "es");
    assert_eq!(p.target_languages(), &strings(&["kr", "en"]));
    assert_eq!(c.all_locales(), strings(&["es", "kr", "en"]));
}

#[test]
fn declared_names() {
    assert!(names_declared(&strings(&["a", "a"]), &strings(&["a", "b"])));
    assert!(!names_declared(&strings(&["c"]), &strings(&["a", "b"])));
    assert!(names_declared(&strings(&[]), &strings(&[])));
}

#[test]
fn structural_object_is_in_key_order() {
    let a = tree(vec![("b", leaf("y")), ("a", leaf("x")), ("c", branch(vec![("z", leaf("1")), ("m", leaf("2"))]))]);
    let b = tree(vec![("c", branch(vec![("m", leaf("2")), ("z", leaf("1"))])), ("a", leaf("x")), ("b", leaf("y"))]);
    let expected = "export const trustlate={a:\"x\",b:\"y\",c:{m:\"2\",z:\"1\"}}as const;".to_string();
    assert_eq!(genererate_typescript(&a), Ok(expected.clone()));
    assert_eq!(genererate_typescript(&b), Ok(expected));
}

#[test]
fn go_accessors_are_in_key_order() {
    let a = tree(vec![("b", leaf("y")), ("a", branch(vec![("z", leaf("1")), ("m", leaf("2"))]))]);
    let b = tree(vec![("a", branch(vec![("m", leaf("2")), ("z", leaf("1"))])), ("b", leaf("y"))]);
    let fa = generate_golang(a, &"en".to_string()).unwrap();
    let fb = generate_golang(b, &"en".to_string()).unwrap();
    assert_eq!(fa, fb);
    let names: Vec<String> = fa.iter().map(|f| f.interface_entry_form()).collect();
    assert_eq!(names, strings(&["AM() string", "AZ() string", "B() string"]));
}

#[test]
fn repaired_tree_renders_like_a_fresh_one() {
    let base = tree(vec![("a", leaf("A")), ("b", leaf("B"))]);
    let mut target = tree(vec![("b", leaf("Bee"))]);
    let diffs = base.compare(&target);
    assert_eq!(target.harmonize(&base, &diffs, "?"), Ok(()));
    let fresh = tree(vec![("a", leaf("?")), ("b", leaf("Bee"))]);
    assert_eq!(genererate_typescript(&target), genererate_typescript(&fresh));
}

#[test]
fn lexical_key_order() {
    assert!(key_before("a", "b"));
    assert!(key_before("ab", "abc"));
    assert!(!key_before("abc", "ab"));
    assert!(!key_before("b", "a"));
    assert!(!key_before("a", "a"));
    assert!(key_before("Z", "a"));
    assert!(key_before("", "a"));
}
