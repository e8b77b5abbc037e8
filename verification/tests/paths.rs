use std::path::{Path, PathBuf};

use blob_wrangler::path::{
    extension_of, file_name_of, join_path, normalize_path, set_extension, trim_components,
};

fn samples() -> Vec<&'static str> {
    vec![
        "", "/", "//", ".", "..", "./", "../", "a", "a/", "a/b", "a//b", "a/./b", "./a", "././a",
        "/a", "//a/b/", "/a/..", "a/..", "a/.", "/.", "a.b", "a.b.c", ".a", ".a.b", "a.", "a/b.mdt",
        "a/b.mdt/", "a/b.mdt/.", "..a", "...", "a/...", "..b/c", "日本.語", "a b/c d.e", "/..",
    ]
}

#[test]
fn joining_agrees_with_std() {
    for base in samples() {
        for path in samples() {
            let expected = Path::new(base).join(path);
            assert_eq!(join_path(base, path), expected.to_str().unwrap(), "{base} {path}");
        }
    }
}

#[test]
fn normalizing_agrees_with_std() {
    for path in samples() {
        let expected = Path::new(path).components().collect::<PathBuf>();
        assert_eq!(normalize_path(path), expected.to_str().unwrap(), "{path}");
        assert_eq!(normalize_path(&normalize_path(path)), normalize_path(path));
    }
}

#[test]
fn naming_agrees_with_std() {
    for path in samples() {
        let expected = Path::new(path).file_name().map(|name| name.to_str().unwrap().to_string());
        assert_eq!(file_name_of(path), expected, "{path}");
    }
}

#[test]
fn extensions_agree_with_std() {
    for path in samples() {
        for extension in ["mbn", "", "b00", "tar.gz"] {
            let mut expected = PathBuf::from(path);
            expected.set_extension(extension);
            assert_eq!(
                set_extension(path, extension),
                expected.to_str().unwrap(),
                "{path} {extension}"
            );
        }
    }
}

#[test]
fn dot_is_the_base() {
    for base in ["/lib/firmware/updates", "a", "./a/", "/"] {
        assert_eq!(normalize_path(&join_path(base, ".")), normalize_path(base));
    }
}

#[test]
fn own_extensions_agree_with_std() {
    for path in samples() {
        let expected = Path::new(path).extension().map(|name| name.to_str().unwrap().to_string());
        assert_eq!(extension_of(path), expected, "{path}");
    }
    assert_eq!(trim_components("a/b//./"), "a/b");
    assert_eq!(trim_components("/"), "");
    assert_eq!(trim_components("a"), "a");
}

#[test]
fn normalized_paths_end_in_a_name() {
    for path in samples() {
        let normalized = normalize_path(path);
        assert!(normalized == "/" || !normalized.ends_with('/'), "{path}");
    }
}
