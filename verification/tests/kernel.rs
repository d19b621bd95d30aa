use engramark::paths::{project_id_from, project_id_of};
use engramark::anchors::{anchor_present, char_grams};
use engramark::json::escape_string;
use engramark::paths::{expand_user, join_path, Layout};
use engramark::{trust_text, Error};

#[test]
fn error_messages() {
    assert_eq!(Error::core_error("x").message(), "x");
    assert_eq!(Error::lock_timeout("mutation").message(), "等待 mutation 锁超时");
    assert_eq!(Error::HookCandidateOverflow.message(), "请求级雷达候选超过上限");
    assert_eq!(Error::HookUnavailable("busy".to_string()).message(), "hook unavailable: busy");
}

#[test]
fn trust_texts() {
    assert_eq!(trust_text(0), "0");
    assert_eq!(trust_text(3), "1.5");
    assert_eq!(trust_text(6), "3");
}

#[test]
fn layout_paths() {
    let layout = Layout { home: "/data/engramark".to_string() };
    assert_eq!(layout.cards(), "/data/engramark/cards");
    assert_eq!(layout.card_path(7), "/data/engramark/cards/0007.mem");
    assert_eq!(join_path("/a/", "b"), "/a/b");
    assert_eq!(expand_user("~/x", "/home/u"), "/home/u/x");
    assert_eq!(expand_user("~", "/home/u"), "/home/u");
    assert_eq!(expand_user("/abs", "/home/u"), "/abs");
}

#[test]
fn grams_and_anchor_presence() {
    let mut grams = char_grams("AB CD");
    grams.sort();
    assert_eq!(grams, vec!["abc".to_string(), "bcd".to_string()]);
    assert!(anchor_present("orchidui", "the orchidui web"));
    assert!(!anchor_present("orchid", "the orchidui web"));
    assert!(anchor_present("下载地址", "运行组件下载地址在哪"));
}

#[test]
fn json_escaping() {
    let mut out = String::from(">");
    escape_string("a\"b\\\n中\u{1}", &mut out);
    assert_eq!(out, ">\"a\\\"b\\\\\\n中\\u0001\"");
}

#[test]
fn relative_paths_use_forward_slashes() {
    let layout = engramark::paths::Layout { home: "/data/em".to_string() };
    assert_eq!(engramark::paths::relative_path(&layout, "/data/em/cards/0001.mem"), "cards/0001.mem");
    assert_eq!(engramark::paths::relative_path(&layout, "/data/em/a\\b.mem"), "a/b.mem");
    assert_eq!(engramark::paths::relative_path(&layout, "/data/em"), "");
}

#[test]
fn ancestors_walk_to_root() {
    assert_eq!(engramark::paths::ancestors("/a/b/c"), vec!["/a/b/c", "/a/b", "/a", "/"]);
    assert_eq!(engramark::paths::ancestors("/"), vec!["/"]);
}

#[test]
fn project_directory_decisions() {
    let broad = vec!["/".to_string(), "/home/u".to_string()];
    let marked = vec![false, true, false, false, false];
    assert_eq!(
        engramark::paths::project_directory("/home/u/proj/sub", true, &broad, "/home/u/engramark", None, &marked, false),
        Some("/home/u/proj".to_string())
    );
    assert_eq!(engramark::paths::project_directory("/home/u/proj/sub", true, &broad, "/home/u/engramark", None, &[false; 5].to_vec(), true), Some("/home/u/proj/sub".to_string()));
    assert_eq!(engramark::paths::project_directory("/home/u/proj/sub", true, &broad, "/home/u/engramark", None, &[false; 5].to_vec(), false), None);
    assert_eq!(engramark::paths::project_directory("/home/u", true, &broad, "/home/u/engramark", None, &marked, true), None);
    assert_eq!(engramark::paths::project_directory("/home/u/engramark/cards", true, &broad, "/home/u/engramark", None, &marked, true), None);
    assert_eq!(engramark::paths::project_directory("/home/u/proj", false, &broad, "/home/u/engramark", None, &marked, true), None);
}

#[test]
fn project_ids_name_the_directory() {
    assert_eq!(project_id_from("/home/u/proj", Some("proj"), &[]), "proj-05c532");
    assert_eq!(project_id_from("/home/u/proj", None, &[]), "project-05c532");
    assert_eq!(project_id_from("/home/u", Some("u"), &["/home/u".to_string()]), "global");
    assert_eq!(project_id_of("/home/u/proj", &["/".to_string()]), "proj-05c532");
    assert_eq!(project_id_of("/", &["/".to_string()]), "global");
}

#[test]
fn empty_anchor_on_a_delimited_position() {
    assert!(anchor_present("", ""));
    assert!(engramark::pyregex::ascii_anchor_present("", " "));
}

#[test]
fn global_working_directories() {
    assert!(engramark::paths::is_global_cwd(None));
    assert!(engramark::paths::is_global_cwd(Some("")));
    assert!(engramark::paths::is_global_cwd(Some("global")));
    assert!(!engramark::paths::is_global_cwd(Some("/work/app")));
    assert!(!engramark::paths::is_global_cwd(Some("Global")));
}
