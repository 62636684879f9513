use std::path::Path;
use toak_rs::paths::extension_of;

fn standard(path: &str) -> Option<String> {
    Path::new(path).extension().map(|e| e.to_string_lossy().into_owned())
}

#[test]
fn extension_follows_the_last_dot_of_the_file_name() {
    assert_eq!(extension_of("src/main.rs"), Some("rs".to_string()));
    assert_eq!(extension_of("archive.tar.gz"), Some("gz".to_string()));
    assert_eq!(extension_of("Makefile"), None);
    assert_eq!(extension_of(".gitignore"), None);
    assert_eq!(extension_of(".config.toml"), Some("toml".to_string()));
    assert_eq!(extension_of("name."), Some("".to_string()));
    assert_eq!(extension_of("dir.d/file"), None);
    assert_eq!(extension_of("dir/file.txt/"), Some("txt".to_string()));
    assert_eq!(extension_of("dir/file.txt/."), Some("txt".to_string()));
    assert_eq!(extension_of("dir/.."), None);
    assert_eq!(extension_of(""), None);
    assert_eq!(extension_of("/"), None);
    assert_eq!(extension_of("."), None);
    assert_eq!(extension_of(".."), None);
    assert_eq!(extension_of("..a"), Some("a".to_string()));
    assert_eq!(extension_of("h\u{e9}.\u{e9}t\u{e9}"), Some("\u{e9}t\u{e9}".to_string()));
}

#[test]
fn extension_is_the_one_of_the_standard_library() {
    let pieces = ["a", "b.c", ".", "..", "/", "//", ".d", "e.", "f.g.h", "", "./", "/.", "x y", "\u{e9}.\u{f6}"];
    for first in pieces {
        for second in pieces {
            for third in pieces {
                for joint in ["", "/"] {
                    let path = format!("{}{}{}{}{}", first, joint, second, joint, third);
                    assert_eq!(extension_of(&path), standard(&path), "{:?}", path);
                }
            }
        }
    }
}
