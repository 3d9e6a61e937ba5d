use multimesh::registry::{default_registry, FormatEntry, FormatRegistry};
use multimesh::result::WResult;

#[test]
fn registry_lists_formats_in_order() {
    let registry = default_registry();
    let names: Vec<&str> = registry.formats().iter().map(|e| e.name()).collect();
    assert_eq!(names, vec!["medit", "ply"]);
    let mut empty = FormatRegistry::empty();
    assert_eq!(empty.formats().len(), 0);
    empty.register(FormatEntry::new("obj".to_string()));
    assert_eq!(empty.formats()[0].name(), "obj");
}

#[test]
fn warnings_accumulate_in_order() {
    let first: WResult<u32, &str, &str> = WResult::Warned(1, vec!["a"]);
    let second = first.and_then(|x| WResult::Warned(x + 1, vec!["b"]));
    match second {
        WResult::Warned(v, w) => {
            assert_eq!(v, 2);
            assert_eq!(w, vec!["a", "b"]);
        }
        _ => panic!("expected warnings"),
    }
    let failed: WResult<u32, &str, &str> = WResult::Warned(1, vec!["a"]);
    let failed = failed.and_then(|_| WResult::<u32, &str, &str>::Failure("bad", vec!["c"]));
    assert!(matches!(failed.as_result(), Err(&"bad")));
    let clean: WResult<u32, &str, &str> = WResult::Success(3);
    assert_eq!(clean.and_then(|x| WResult::Success(x * 2)).into_result(), Ok(6));
}
