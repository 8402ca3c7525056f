use filewatcher::is_ignored;
use filewatcher::is_ignored_path;
use filewatcher::matches_extension;

#[test]
fn matches_extension_exact() {
    let exts = vec![".php".to_string()];
    assert!(matches_extension("app/Models/User.php", &exts));
}

#[test]
fn matches_extension_blade_php() {
    let exts = vec![".blade.php".to_string()];
    assert!(matches_extension("resources/views/home.blade.php", &exts));
}

#[test]
fn matches_extension_no_match() {
    let exts = vec![".php".to_string()];
    assert!(!matches_extension("README.md", &exts));
}

#[test]
fn matches_extension_multiple_exts() {
    let exts = vec![".php".to_string(), ".js".to_string()];
    assert!(matches_extension("app.js", &exts));
    assert!(matches_extension("index.php", &exts));
    assert!(!matches_extension("style.css", &exts));
}

#[test]
fn matches_extension_blade_not_plain_php() {
    let exts = vec![".blade.php".to_string()];
    assert!(!matches_extension("app/Models/User.php", &exts));
    assert!(matches_extension("views/home.blade.php", &exts));
}

#[test]
fn matches_extension_empty_list() {
    let exts: Vec<String> = Vec::new();
    assert!(!matches_extension("index.php", &exts));
}

#[test]
fn is_ignored_dotfile() {
    assert!(is_ignored(".env"));
    assert!(is_ignored(".gitignore"));
}

#[test]
fn is_ignored_dotdir() {
    assert!(is_ignored(".git"));
    assert!(is_ignored(".idea"));
}

#[test]
fn is_ignored_vendor() {
    assert!(is_ignored("vendor"));
}

#[test]
fn is_ignored_node_modules() {
    assert!(is_ignored("node_modules"));
}

#[test]
fn is_ignored_normal_path() {
    assert!(!is_ignored("app"));
    assert!(!is_ignored("src"));
    assert!(!is_ignored("Models"));
}

#[test]
fn is_ignored_looks_at_own_name() {
    assert!(is_ignored("app/.git"));
    assert!(is_ignored("project/vendor"));
    assert!(!is_ignored("project/app"));
}

#[test]
fn is_ignored_path_dotdir_segment() {
    assert!(is_ignored_path("app/.git/config"));
    assert!(is_ignored_path(".idea/workspace.xml"));
}

#[test]
fn is_ignored_path_vendor_segment() {
    assert!(is_ignored_path("vendor/autoload.php"));
    assert!(is_ignored_path("app/vendor/file.php"));
}

#[test]
fn is_ignored_path_node_modules_segment() {
    assert!(is_ignored_path("node_modules/express/index.js"));
}

#[test]
fn is_ignored_path_normal() {
    assert!(!is_ignored_path("app/Models/User.php"));
    assert!(!is_ignored_path("config/app.php"));
}

#[test]
fn is_ignored_path_deep_segment() {
    assert!(is_ignored_path("a/b/c/node_modules/d/e/f.js"));
    assert!(is_ignored_path("a/b/.hidden/d/e/f.php"));
}
