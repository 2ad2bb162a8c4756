use goboscript::ast::{Arg, Type};
use goboscript::names::{same_text, NameMap, NameSet};
use goboscript::visitor::spelled_boolean;
use goboscript::visitor::uy_borrow_check::{
    decode_borrow_name, decode_ref_arg, param, signature, BaseTy, Key, KeySet, ParamTy,
};

#[test]
fn decodes_a_shared_reference_parameter() {
    let spec = decode_ref_arg("@uyref:0:String:s").expect("a reference parameter");
    assert!(!spec.mutable);
    assert!(matches!(spec.inner, BaseTy::String));
    assert_eq!(spec.logical_name, "s");
}

#[test]
fn decodes_a_mutable_struct_reference_parameter() {
    let spec = decode_ref_arg("@uyref:1:Point:p").expect("a reference parameter");
    assert!(spec.mutable);
    assert!(matches!(&spec.inner, BaseTy::Struct(name) if name == "Point"));
    assert_eq!(spec.logical_name, "p");
}

#[test]
fn reference_parameter_name_may_hold_colons() {
    let spec = decode_ref_arg("@uyref:0:Int:a:b").expect("a reference parameter");
    assert!(matches!(spec.inner, BaseTy::Int));
    assert_eq!(spec.logical_name, "a:b");
}

#[test]
fn malformed_reference_parameters_are_not_decoded() {
    assert!(decode_ref_arg("s").is_none());
    assert!(decode_ref_arg("@uyref:2:String:s").is_none());
    assert!(decode_ref_arg("@uyref:0:String").is_none());
    assert!(decode_ref_arg("@uyref:").is_none());
    assert!(decode_ref_arg("@uyborrow:0:s").is_none());
}

#[test]
fn decodes_borrows() {
    assert_eq!(decode_borrow_name("@uyborrow:0:s"), Some((false, "s".to_string())));
    assert_eq!(decode_borrow_name("@uyborrow:1:x:y"), Some((true, "x:y".to_string())));
    assert_eq!(decode_borrow_name("@uyborrow:1:"), Some((true, String::new())));
    assert_eq!(decode_borrow_name("@uyborrow:x:s"), None);
    assert_eq!(decode_borrow_name("@uyborrow:1"), None);
    assert_eq!(decode_borrow_name("message"), None);
}

#[test]
fn base_types_follow_their_names() {
    assert!(matches!(BaseTy::from_name("Boolean"), BaseTy::Bool));
    assert!(matches!(BaseTy::from_name("Bool"), BaseTy::Bool));
    assert!(matches!(BaseTy::from_name("Any"), BaseTy::Dynamic));
    assert!(matches!(BaseTy::from_name("Value"), BaseTy::Dynamic));
    assert!(BaseTy::Number.accepts(&BaseTy::Int));
    assert!(!BaseTy::Int.accepts(&BaseTy::Number));
    assert!(BaseTy::Dynamic.accepts(&BaseTy::String));
    assert!(BaseTy::String.accepts(&BaseTy::Dynamic));
    assert!(BaseTy::Struct("P".into()).accepts(&BaseTy::Struct("P".into())));
    assert!(!BaseTy::Struct("P".into()).accepts(&BaseTy::Struct("Q".into())));
    assert!(BaseTy::String.owned());
    assert!(BaseTy::Struct("P".into()).owned());
    assert!(!BaseTy::Int.owned());
    assert_eq!(BaseTy::Dynamic.display(), "value");
    assert_eq!(BaseTy::Struct("Point".into()).display(), "Point");
}

#[test]
fn parameters_decode_reference_encodings() {
    let args = vec![
        Arg {
            name: "@uyref:1:String:text".to_string(),
            span: 0..0,
            type_: Type::Struct { name: "Any".to_string(), span: 0..0 },
        },
        Arg {
            name: "n".to_string(),
            span: 0..0,
            type_: Type::Struct { name: "Int".to_string(), span: 0..0 },
        },
    ];
    let sig = signature(&args);
    assert_eq!(sig.len(), 2);
    assert_eq!(sig[0].name, "text");
    assert!(matches!(&sig[0].type_, ParamTy::Ref(spec) if spec.mutable));
    assert_eq!(sig[1].name, "n");
    assert!(matches!(&sig[1].type_, ParamTy::Value(BaseTy::Int)));
    let p = param(&args[1]);
    assert!(matches!(p.type_, ParamTy::Value(BaseTy::Int)));
}

#[test]
fn name_sets_insert_and_remove() {
    let mut set = NameSet::new();
    set.insert("a");
    set.insert("b");
    set.insert("a");
    assert!(set.contains("a"));
    set.remove("a");
    assert!(!set.contains("a"));
    assert!(set.contains("b"));
    let copy = set.copy();
    let mut other = NameSet::new();
    other.insert("c");
    set.extend(&other);
    assert!(set.contains("c"));
    assert!(!copy.contains("c"));
}

#[test]
fn key_sets_tell_variables_from_parameters() {
    let mut keys = KeySet::new();
    keys.insert(Key::var("x".to_string()));
    assert!(keys.contains(&Key::var("x".to_string())));
    assert!(!keys.contains(&Key::arg("x".to_string())));
    keys.remove(&Key::var("x".to_string()));
    assert!(!keys.contains(&Key::var("x".to_string())));
}

#[test]
fn name_maps_find_the_first_entry() {
    let mut map = NameMap::new();
    map.entries.push(("a".to_string(), 1));
    map.entries.push(("b".to_string(), 2));
    map.entries.push(("a".to_string(), 3));
    assert_eq!(map.get("a"), Some(&1));
    assert_eq!(map.find_index("b"), Some(1));
    assert_eq!(map.get("c"), None);
}

#[test]
fn same_text_compares_characters() {
    assert!(same_text("é", "é"));
    assert!(!same_text("e", "é"));
    assert!(!same_text("ab", "a"));
}

#[test]
fn booleans_are_recognized_by_their_spelling() {
    let text = b"x = true; y = 1; z =  false ;";
    assert!(spelled_boolean(text, &(4..8)));
    assert!(!spelled_boolean(text, &(14..15)));
    assert!(spelled_boolean(text, &(20..27)));
    assert!(!spelled_boolean(text, &(20..40)));
}
