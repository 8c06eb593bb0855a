use cov::sourcepath::{
    identify_source_path, SourceType, SOURCE_TYPE_ALL, SOURCE_TYPE_CRATES, SOURCE_TYPE_DEFAULT,
    SOURCE_TYPE_LOCAL, SOURCE_TYPE_MACROS, SOURCE_TYPE_RUSTSRC, SOURCE_TYPE_UNKNOWN,
};

const REGISTRY: &str = "/home/me/.cargo/registry/src/";

fn identify(path: &str) -> (u8, usize) {
    let (kind, prefix) = identify_source_path(path, "/workspace/path", REGISTRY, b'/');
    (kind.bits, prefix)
}

#[test]
fn test_identify_rust_source() {
    let source_path = "/Users/travis/build/rust-lang/rust/src/libstd/lib.rs";
    let (source_type, prefix_len) =
        identify_source_path(source_path, "/workspace/path", REGISTRY, b'/');
    assert_eq!(source_type, SourceType { bits: SOURCE_TYPE_RUSTSRC });
    let simplified_path = format!("{}/{}", source_type.prefix(), &source_path[prefix_len..]);
    assert_eq!(simplified_path, "\u{ab}rust\u{bb}/src/libstd/lib.rs");
    assert_eq!(identify("/checkout/src/libcore/lib.rs"), (SOURCE_TYPE_RUSTSRC, 10));
    assert_eq!(identify("C:\\projects\\rust\\src\\lib.rs"), (SOURCE_TYPE_RUSTSRC, 17));
}

#[test]
fn test_identify_local_and_crates() {
    assert_eq!(identify("/workspace/path/src/main.rs"), (SOURCE_TYPE_LOCAL, 15));
    assert_eq!(
        identify("/home/me/.cargo/registry/src/github.com-1ecc/serde-1.0/src/lib.rs"),
        (SOURCE_TYPE_CRATES, REGISTRY.len() + 16)
    );
    assert_eq!(
        identify("/home/me/.cargo/registry/src/nothing-more"),
        (SOURCE_TYPE_CRATES, REGISTRY.len())
    );
}

#[test]
fn test_identify_macros_and_unknown() {
    assert_eq!(identify("<std macros>"), (SOURCE_TYPE_MACROS, 0));
    assert_eq!(identify("<std macros"), (SOURCE_TYPE_UNKNOWN, 0));
    assert_eq!(identify("/somewhere/else.rs"), (SOURCE_TYPE_UNKNOWN, 0));
    assert_eq!(identify(""), (SOURCE_TYPE_UNKNOWN, 0));
}

#[test]
fn test_source_type_names() {
    assert_eq!(SourceType::from_str("local"), Ok(SourceType { bits: SOURCE_TYPE_LOCAL }));
    assert_eq!(SourceType::from_str("macros"), Ok(SourceType { bits: SOURCE_TYPE_MACROS }));
    assert_eq!(SourceType::from_str("rustsrc"), Ok(SourceType { bits: SOURCE_TYPE_RUSTSRC }));
    assert_eq!(SourceType::from_str("crates"), Ok(SourceType { bits: SOURCE_TYPE_CRATES }));
    assert_eq!(SourceType::from_str("unknown"), Ok(SourceType { bits: SOURCE_TYPE_UNKNOWN }));
    assert_eq!(SourceType::from_str("all"), Ok(SourceType { bits: SOURCE_TYPE_ALL }));
    assert!(SourceType::from_str("Local").is_err());
    assert_eq!(
        SourceType::from_multi_str(&vec!["local", "macros", "unknown"]),
        Ok(SourceType { bits: SOURCE_TYPE_DEFAULT })
    );
    assert_eq!(SourceType::from_multi_str(&vec![]), Ok(SourceType { bits: 0 }));
    assert!(SourceType::from_multi_str(&vec!["local", "nothing", "crates"]).is_err());
}

#[test]
fn test_source_type_prefix() {
    assert_eq!(SourceType { bits: SOURCE_TYPE_LOCAL }.prefix(), ".");
    assert_eq!(SourceType { bits: SOURCE_TYPE_CRATES }.prefix(), "\u{ab}crates\u{bb}");
    assert_eq!(SourceType { bits: SOURCE_TYPE_UNKNOWN }.prefix(), "");
    assert_eq!(SourceType { bits: SOURCE_TYPE_DEFAULT }.prefix(), "");
}
