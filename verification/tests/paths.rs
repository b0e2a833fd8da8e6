use anttp::paths::{get_path_parts, path_segments_of, split_on};

const HEX_A: &str = "0a1b2c3d4e5f60718293a4b5c6d7e8f90a1b2c3d4e5f60718293a4b5c6d7e8f9";

fn path_strs(v: &[&str]) -> Vec<String> {
    v.iter().map(|s| s.to_string()).collect()
}

#[test]
fn autonomi_host_gives_its_subdomain_first() {
    assert_eq!(get_path_parts("blog.autonomi", "/posts/1"), path_strs(&["blog", "posts", "1"]));
    assert_eq!(get_path_parts("a.b.autonomi", "x//y/"), path_strs(&["a.b", "x", "y"]));
    assert_eq!(get_path_parts("a.b.autonomi", "/x"), path_strs(&["a.b", "x"]));
    assert_eq!(get_path_parts(".autonomi", ""), path_strs(&[""]));
}

#[test]
fn xor_host_gives_itself_first() {
    let parts = get_path_parts(HEX_A, "/index.html");
    assert_eq!(parts, path_strs(&[HEX_A, "index.html"]));
}

#[test]
fn other_hosts_split_the_path_only() {
    assert_eq!(get_path_parts("localhost:8080", "/abc/def/"), path_strs(&["abc", "def"]));
    assert_eq!(get_path_parts("example.com", "///"), Vec::<String>::new());
    assert_eq!(get_path_parts("example.com", ""), Vec::<String>::new());
}

#[test]
fn split_keeps_empty_pieces() {
    assert_eq!(split_on("a..b.", '.'), path_strs(&["a", "", "b", ""]));
    assert_eq!(split_on("", '.'), path_strs(&[""]));
}

#[test]
fn path_segments_are_non_empty_without_slashes() {
    for seg in path_segments_of("//a/b//c/") {
        assert!(!seg.is_empty());
        assert!(!seg.contains('/'));
    }
    assert_eq!(path_segments_of("//a/b//c/"), path_strs(&["a", "b", "c"]));
}

#[test]
fn extra_slashes_do_not_change_parts() {
    for host in ["blog.autonomi", HEX_A, "example.com"] {
        let plain = get_path_parts(host, "a/b/c");
        assert_eq!(get_path_parts(host, "/a/b/c/"), plain);
        assert_eq!(get_path_parts(host, "a//b//c"), plain);
    }
}
