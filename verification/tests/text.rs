use skylink_network::text::{divide_text_file, obtain_file_display_name};
use skylink_network::text_server::{TextServer, MAX_FILES};

#[test]
fn display_name_of_path() {
    assert_eq!(obtain_file_display_name("assets/texts/story.txt".to_string()), "story");
    assert_eq!(obtain_file_display_name("plain".to_string()), "plain");
    assert_eq!(obtain_file_display_name("dir/".to_string()), "");
    assert_eq!(obtain_file_display_name("a.b/c".to_string()), "c");
    assert_eq!(obtain_file_display_name("./texts/doc.txt".to_string()), "doc");
    assert_eq!(obtain_file_display_name("dir/archive.tar.gz".to_string()), "archive");
}

#[test]
fn display_name_has_no_slash_or_dot() {
    for p in ["x/y/z.png", "../up/file.tar.gz", "a/b/c", "noext"] {
        let n = obtain_file_display_name(p.to_string());
        assert!(!n.contains('/') && !n.contains('.'));
    }
}

#[test]
fn divide_lists_each_complete_line_once() {
    let mut names = divide_text_file("img/cat.jpg\r\nimg/dog.png\nother/cat.gif\nlast_without_newline".to_string());
    names.sort();
    assert_eq!(names, vec!["cat".to_string(), "dog".to_string()]);
}

#[test]
fn divide_empty_text() {
    assert!(divide_text_file(String::new()).is_empty());
}

#[test]
fn text_server_numbers_files_from_node_id() {
    let server = TextServer::new(
        3,
        vec![("docs/a.txt".to_string(), "m/x.jpg\n".to_string()), ("docs/b.txt".to_string(), "".to_string())],
    );
    let list = server.text_list();
    assert_eq!(list.len(), 2);
    assert_eq!(list[0], (3u64 << 56, "a".to_string()));
    assert_eq!(list[1], ((3u64 << 56) + 1, "b".to_string()));
    let (complete, incomplete) = server.files_state();
    assert_eq!(complete, vec![((3u64 << 56) + 1, "b".to_string())]);
    assert_eq!(incomplete, vec![(3u64 << 56, "a".to_string())]);
    assert!(MAX_FILES > 2);
}
