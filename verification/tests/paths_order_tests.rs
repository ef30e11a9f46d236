use pc_health_cleaner::order::{lex_lt_exec, stable_desc_order, stable_lex_order, stable_path_order};
use pc_health_cleaner::paths::{
    extension_exec, file_name_exec, file_stem_exec, join_exec, lower_ext_or_empty_exec,
    name_extension_exec, name_stem_exec, parent_exec,
};
use pc_health_cleaner::scanner::is_archive_ext_exec;

fn v(s: &str) -> Vec<char> {
    s.chars().collect()
}

fn sv(s: Option<Vec<char>>) -> Option<String> {
    s.map(|c| c.into_iter().collect())
}

#[test]
fn file_names_of_paths() {
    assert_eq!(sv(file_name_exec(&v("C:/a/b.txt"))), Some("b.txt".to_string()));
    assert_eq!(sv(file_name_exec(&v("C:\\a\\b.txt"))), Some("b.txt".to_string()));
    assert_eq!(sv(file_name_exec(&v("C:/a/"))), Some("a".to_string()));
    assert_eq!(sv(file_name_exec(&v("C:/a/.."))), None);
    assert_eq!(sv(file_name_exec(&v(""))), None);
    assert_eq!(sv(file_name_exec(&v("/"))), None);
}

#[test]
fn parents_of_paths() {
    assert_eq!(sv(parent_exec(&v("C:/a/b.txt"))), Some("C:/a".to_string()));
    assert_eq!(sv(parent_exec(&v("C:/b.txt"))), Some("C:/".to_string()));
    assert_eq!(sv(parent_exec(&v("/x"))), Some("/".to_string()));
    assert_eq!(sv(parent_exec(&v("x"))), Some(String::new()));
    assert_eq!(sv(parent_exec(&v("/"))), None);
    assert_eq!(sv(parent_exec(&v("a//b"))), Some("a".to_string()));
}

#[test]
fn extensions_and_stems() {
    assert_eq!(sv(extension_exec(&v("a/b.tar.gz"))), Some("gz".to_string()));
    assert_eq!(sv(extension_exec(&v("a/.bashrc"))), None);
    assert_eq!(sv(extension_exec(&v("a/b."))), Some(String::new()));
    assert_eq!(sv(file_stem_exec(&v("a/b.tar.gz"))), Some("b.tar".to_string()));
    assert_eq!(sv(file_stem_exec(&v("a/.bashrc"))), Some(".bashrc".to_string()));
    assert_eq!(lower_ext_or_empty_exec(&v("A.TXT")), v("txt"));
    assert_eq!(lower_ext_or_empty_exec(&v("noext")), Vec::<char>::new());
    assert_eq!(sv(name_extension_exec(&v("b.tar.gz"))), Some("gz".to_string()));
    assert_eq!(name_stem_exec(&v("b.tar.gz")), v("b.tar"));
    assert!(is_archive_ext_exec(&v("ZIP")));
    assert!(is_archive_ext_exec(&v("bz2")));
    assert!(!is_archive_ext_exec(&v("txt")));
}

#[test]
fn joining_paths() {
    assert_eq!(join_exec("C:/a", "b"), "C:/a/b");
    assert_eq!(join_exec("C:/a/", "b"), "C:/a/b");
    assert_eq!(join_exec("C:\\a\\", "b"), "C:\\a\\b");
    assert_eq!(join_exec("C:\\a", "b"), "C:\\a\\b");
    assert_eq!(join_exec("C:\\a\\x", "b"), "C:\\a\\x\\b");
    assert_eq!(join_exec("", "b"), "b");
}

#[test]
fn stable_orders() {
    assert_eq!(stable_desc_order(&vec![3, 5, 3, 9]), vec![3, 1, 0, 2]);
    assert_eq!(stable_desc_order(&Vec::new()), Vec::<usize>::new());
    assert_eq!(stable_lex_order(&vec![v("b"), v("a"), v("b"), v("a")], false), vec![1, 3, 0, 2]);
    assert_eq!(stable_path_order(&vec![v("C:/ab/f"), v("C:/a/f"), v("C:/a-b/f")]), vec![1, 2, 0]);
    assert!(lex_lt_exec(&v("a/b"), &v("a-b"), true));
    assert!(!lex_lt_exec(&v("a/b"), &v("a-b"), false));
    assert!(lex_lt_exec(&v("ab"), &v("abc"), false));
    assert!(!lex_lt_exec(&v("abc"), &v("abc"), false));
}
