use playlist_tidy::paths::{local_paths, move_playlist, rebase_path};

fn some(s: &str) -> Option<String> {
    Some(s.to_string())
}

#[test]
fn local_paths_skip_directives_and_urls() {
    let out = "#EXTM3U\n#EXTGRP:x\n#EXTINF:1,A\nsongs/a.mp3\n#EXTINF:-1,B\nhttp://x/b\n#EXTINF:2,C\n/abs/c.mp3\n";
    assert_eq!(local_paths(out), vec!["songs/a.mp3".to_string(), "/abs/c.mp3".to_string()]);
    assert!(local_paths("#EXTM3U\n").is_empty());
}

#[test]
fn rebased_paths_name_the_same_file() {
    assert_eq!(rebase_path("shared/track.mp3", "my_library", "backup"), some("../my_library/shared/track.mp3"));
    assert_eq!(rebase_path("a.mp3", "/home/u/lib", "/home/u/out/sub"), some("../../lib/a.mp3"));
    assert_eq!(rebase_path("x/../a.mp3", "lib", "lib2"), some("../lib/a.mp3"));
    assert_eq!(rebase_path("sub/a.mp3", "lib", "lib/sub"), some("a.mp3"));
    assert_eq!(rebase_path("sub", "lib", "lib/sub"), some("."));
    assert_eq!(rebase_path("a.mp3", "..", "x"), some("../../a.mp3"));
}

#[test]
fn paths_that_stay_as_they_are() {
    // the same file from both places
    assert_eq!(rebase_path("../shared/track.mp3", "my_library", "backup"), None);
    // the same directory
    assert_eq!(rebase_path("a.mp3", "lib", "./lib//"), None);
    // URLs and absolute paths
    assert_eq!(rebase_path("http://h/a.mp3", "lib", "out"), None);
    assert_eq!(rebase_path("/music/a.mp3", "lib", "out"), None);
    assert_eq!(rebase_path("C:/Music/a.mp3", "lib", "out"), None);
    // the new directory climbs out of what the two share
    assert_eq!(rebase_path("a.mp3", ".", "../y"), None);
}

#[test]
fn moving_a_playlist_rewrites_and_reports_each_relative_path() {
    let out = "#EXTM3U\n#EXTINF:1,A\nsongs/a.mp3\n#EXTINF:-1,B\nhttp://x/b\n#EXTINF:2,C\n/abs/c.mp3\n";
    let (moved, warnings) = move_playlist(out, "lib", "out");
    assert_eq!(moved, "#EXTM3U\n#EXTINF:1,A\n../lib/songs/a.mp3\n#EXTINF:-1,B\nhttp://x/b\n#EXTINF:2,C\n/abs/c.mp3\n");
    assert_eq!(warnings, vec!["rewrote relative path 'songs/a.mp3' to '../lib/songs/a.mp3'".to_string()]);
}

#[test]
fn moving_within_the_same_directory_changes_nothing() {
    let out = "#EXTM3U\n#EXTINF:1,A\nsongs/a.mp3\n";
    let (moved, warnings) = move_playlist(out, "lib", "lib/.");
    assert_eq!(moved, out);
    assert!(warnings.is_empty());
}

#[test]
fn at_the_root_dotdot_stays_at_the_root() {
    assert_eq!(rebase_path("a.mp3", "/../lib", "/x"), some("../lib/a.mp3"));
    assert_eq!(rebase_path("a.mp3", "/lib", "/../lib"), None);
    assert_eq!(rebase_path("../../a.mp3", "/lib", "/x"), some("../a.mp3"));
    // one absolute and one relative directory cannot be related lexically
    assert_eq!(rebase_path("a.mp3", "lib", "/out"), None);
}
