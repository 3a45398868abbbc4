use playlist_tidy::{FormatResult, Options};

fn strict() -> Options {
    Options { lenient: false }
}

fn lenient() -> Options {
    Options { lenient: true }
}

fn error_of(r: Result<playlist_tidy::FormatResult, playlist_tidy::FormatError>) -> playlist_tidy::FormatError {
    match r {
        Ok(result) => panic!("expected an error, got output {:?}", result.output),
        Err(e) => e,
    }
}

fn run(input: &str, opts: &Options) -> FormatResult {
    playlist_tidy::format(input, opts).unwrap()
}

#[test]
fn passes_through_a_clean_playlist() {
    let input = "#EXTM3U\n#EXTINF:123,Artist - Title\nsongs/track.mp3\n";
    let result = playlist_tidy::format(input, &strict()).unwrap();
    assert_eq!(result.output, input);
    assert!(result.warnings.is_empty());
}

#[test]
fn strict_rejects_missing_header() {
    let input = "#EXTINF:123,Artist - Title\nsongs/track.mp3\n";
    assert!(playlist_tidy::format(input, &strict()).is_err());
}

#[test]
fn lenient_inserts_missing_header() {
    let input = "#EXTINF:123,Artist - Title\nsongs/track.mp3\n";
    let result = playlist_tidy::format(input, &lenient()).unwrap();
    assert!(result.output.starts_with("#EXTM3U\n"));
    assert!(!result.warnings.is_empty());
}

#[test]
fn strict_rejects_backslash_paths() {
    let input = "#EXTM3U\n#EXTINF:123,Title\nC:\\Music\\track.mp3\n";
    assert!(playlist_tidy::format(input, &strict()).is_err());
}

#[test]
fn lenient_converts_backslash_paths() {
    let input = "#EXTM3U\n#EXTINF:123,Title\nC:\\Music\\track.mp3\n";
    let result = playlist_tidy::format(input, &lenient()).unwrap();
    assert!(result.output.contains("C:/Music/track.mp3"));
}

#[test]
fn drops_blank_lines_and_crlf() {
    let input = "#EXTM3U\r\n\r\n#EXTINF:5,Title\r\n\r\ntrack.mp3\r\n";
    let result = playlist_tidy::format(input, &strict()).unwrap();
    assert_eq!(result.output, "#EXTM3U\n#EXTINF:5,Title\ntrack.mp3\n");
}

#[test]
fn strict_rejects_entry_without_extinf() {
    let input = "#EXTM3U\ntrack.mp3\n";
    assert!(playlist_tidy::format(input, &strict()).is_err());
}

#[test]
fn lenient_synthesizes_missing_extinf() {
    let input = "#EXTM3U\nsongs/track.mp3\n";
    let result = playlist_tidy::format(input, &lenient()).unwrap();
    assert!(result.output.contains("#EXTINF:-1,track.mp3"));
}

#[test]
fn readme_lenient_example() {
    let input = "#EXTINF:180,Radiohead - Idioteque\n\nC:\\Music\\Kid A\\04 idioteque.mp3\ntrack_with_no_extinf.mp3\n";
    let result = run(input, &lenient());
    assert_eq!(
        result.output,
        "#EXTM3U\n#EXTINF:180,Radiohead - Idioteque\nC:/Music/Kid A/04 idioteque.mp3\n#EXTINF:-1,track_with_no_extinf.mp3\ntrack_with_no_extinf.mp3\n"
    );
    assert_eq!(
        result.warnings,
        vec![
            "missing #EXTM3U header, inserted one".to_string(),
            "repaired path at line 3 (path uses backslashes instead of forward slashes)".to_string(),
            "entry at line 4 had no #EXTINF, synthesized one".to_string(),
        ]
    );
}

#[test]
fn strict_error_messages_name_the_line() {
    let e = error_of(playlist_tidy::format("#EXTM3U\n#EXTINF:three,Song\na.mp3\n", &strict()));
    assert_eq!(e.message, "malformed #EXTINF at line 2: duration 'three' is not an integer");
    let e = error_of(playlist_tidy::format("#EXTM3U\n#EXTINF:-5,Song\na.mp3\n", &strict()));
    assert_eq!(e.message, "malformed #EXTINF at line 2: duration -5 is negative");
    let e = error_of(playlist_tidy::format("#EXTM3U\n#EXTINF:5\na.mp3\n", &strict()));
    assert_eq!(e.message, "malformed #EXTINF at line 2: missing comma between duration and title");
    let e = error_of(playlist_tidy::format("#EXTM3U\n#EXTINF:5,  \na.mp3\n", &strict()));
    assert_eq!(e.message, "malformed #EXTINF at line 2: title is empty");
    let e = error_of(playlist_tidy::format("#EXTM3U\n#EXTINF:5,A\n#EXTINF:6,B\nb.mp3\n", &strict()));
    assert_eq!(e.message, "#EXTINF at line 3 was never followed by an entry");
    let e = error_of(playlist_tidy::format("#EXTM3U\n#EXTINF:5,A\n", &strict()));
    assert_eq!(e.message, "playlist ends with a dangling #EXTINF and no entry");
    let e = error_of(playlist_tidy::format("#EXTM3U\nx\\y.mp3\n", &strict()));
    assert_eq!(e.message, "invalid path at line 2: path uses backslashes instead of forward slashes");
    let e = error_of(playlist_tidy::format("#EXTM3U\na.mp3\n", &strict()));
    assert_eq!(e.message, "entry at line 2 is missing a preceding #EXTINF");
    let e = error_of(playlist_tidy::format("", &strict()));
    assert_eq!(e.message, "playlist is missing the #EXTM3U header");
    // blank lines count: the malformed line is line 3 of the input
    let e = error_of(playlist_tidy::format("#EXTM3U\n\n#EXTINF:three,Title\ntrack.mp3\n", &strict()));
    assert_eq!(e.message, "malformed #EXTINF at line 3: duration 'three' is not an integer");
    let e = error_of(playlist_tidy::format("\u{feff}#EXTM3U\r\n\r\n\r\nx\\y.mp3\r\n", &strict()));
    assert_eq!(e.message, "invalid path at line 4: path uses backslashes instead of forward slashes");
}

#[test]
fn lenient_repairs_extinf_and_reports_each_repair() {
    let result = run("#EXTM3U\n#EXTINF:abc, Song \na.mp3\n#EXTINF:-7\nb.mp3\n#EXTINF:3,Kept\n", &lenient());
    assert_eq!(result.output, "#EXTM3U\n#EXTINF:-1,Song\na.mp3\n#EXTINF:-1,-7\nb.mp3\n");
    assert_eq!(
        result.warnings,
        vec![
            "repaired malformed #EXTINF at line 2 (duration 'abc' is not an integer)".to_string(),
            "repaired malformed #EXTINF at line 4 (missing comma between duration and title)"
                .to_string(),
            "playlist ends with a dangling #EXTINF and no entry".to_string(),
        ]
    );
}

#[test]
fn passes_directives_urls_bom_and_extreme_durations() {
    let input = "\u{feff}#EXTM3U\r#EXTGRP:Rock\n#EXTINF:-9223372036854775808,x\n#EXTINF:9223372036854775807 ,\u{3000}Wide\u{2003}\nhttp://host\\a/b\n";
    let result = run(input, &lenient());
    assert_eq!(
        result.output,
        "#EXTM3U\n#EXTGRP:Rock\n#EXTINF:9223372036854775807,Wide\nhttp://host\\a/b\n"
    );
    assert_eq!(
        result.warnings,
        vec![
            "repaired malformed #EXTINF at line 3 (duration -9223372036854775808 is negative)"
                .to_string(),
            "#EXTINF at line 4 was never followed by an entry".to_string(),
        ]
    );
}

#[test]
fn lenient_never_fails_and_strict_agrees_when_clean() {
    let input = "#EXTM3U\n#EXTINF:+12,Plus\n/abs/p.mp3\n";
    let s = run(input, &strict());
    let l = run(input, &lenient());
    assert_eq!(s.output, l.output);
    assert_eq!(s.output, "#EXTM3U\n#EXTINF:12,Plus\n/abs/p.mp3\n");
    assert!(l.warnings.is_empty());
    let again = run(&s.output, &strict());
    assert_eq!(again.output, s.output);
    assert!(again.warnings.is_empty());
}

#[test]
fn strict_output_formats_to_itself() {
    let input = "\u{feff}#EXTM3U\r\n#EXTGRP:rock\r\n#EXTINF: 42 ,  Artist, Title  \r\n\r\n  songs/a b.mp3  \r\n#EXTINF:-1,Live\nhttp://x/y\\z\n";
    let first = playlist_tidy::format(input, &strict()).unwrap();
    assert_eq!(first.output, "#EXTM3U\n#EXTGRP:rock\n#EXTINF:42,Artist, Title\n  songs/a b.mp3\n#EXTINF:-1,Live\nhttp://x/y\\z\n");
    let second = playlist_tidy::format(&first.output, &strict()).unwrap();
    assert_eq!(second.output, first.output);
    assert!(second.warnings.is_empty());
}

#[test]
fn blank_lines_and_line_endings_change_nothing_but_line_numbers() {
    let plain = "#EXTINF:x,A\nsongs\\a.mp3\n#EXTINF:2,B";
    let spaced = "\n#EXTINF:x,A\n\n\nsongs\\a.mp3\n\n#EXTINF:2,B\n\n";
    let crlf = "#EXTINF:x,A\r\nsongs\\a.mp3\r#EXTINF:2,B";
    for opts in [strict(), lenient()] {
        let a = playlist_tidy::format(plain, &opts);
        let c = playlist_tidy::format(crlf, &opts);
        match (&a, &c) {
            (Ok(x), Ok(y)) => {
                assert_eq!(x.output, y.output);
                assert_eq!(x.warnings, y.warnings);
            }
            (Err(x), Err(y)) => assert_eq!(x.message, y.message),
            _ => panic!("outcomes differ"),
        }
        let b = playlist_tidy::format(spaced, &opts);
        match (&a, &b) {
            (Ok(x), Ok(y)) => {
                assert_eq!(x.output, y.output);
                assert_eq!(x.warnings.len(), y.warnings.len());
            }
            (Err(_), Err(_)) => {}
            _ => panic!("outcomes differ"),
        }
    }
    let p = playlist_tidy::format(plain, &lenient()).unwrap();
    let l = playlist_tidy::format(spaced, &lenient()).unwrap();
    assert_eq!(p.warnings[1], "repaired malformed #EXTINF at line 1 (duration 'x' is not an integer)");
    assert_eq!(l.warnings[1], "repaired malformed #EXTINF at line 2 (duration 'x' is not an integer)");
    assert_eq!(l.warnings[2], "repaired path at line 5 (path uses backslashes instead of forward slashes)");
}

#[test]
fn lenient_output_formats_to_itself_where_titles_are_clean() {
    let input = "#EXTINF:x,A\r\nsongs\\a.mp3\n#EXTINF:5\nb.mp3\nc/d.mp3\n#EXTINF:1,dangling";
    let first = playlist_tidy::format(input, &lenient()).unwrap();
    assert_eq!(first.output, "#EXTM3U\n#EXTINF:-1,A\nsongs/a.mp3\n#EXTINF:-1,5\nb.mp3\n#EXTINF:-1,d.mp3\nc/d.mp3\n");
    assert!(!first.warnings.is_empty());
    let second = playlist_tidy::format(&first.output, &strict()).unwrap();
    assert_eq!(second.output, first.output);
    assert!(second.warnings.is_empty());
    // a derived title that is empty is not clean
    let odd = playlist_tidy::format("#EXTM3U\nsongs/\n", &lenient()).unwrap();
    assert_eq!(odd.output, "#EXTM3U\n#EXTINF:-1,\nsongs/\n");
    assert!(playlist_tidy::format(&odd.output, &strict()).is_err());
}

#[test]
fn repaired_extinf_reparses_to_itself() {
    for rest in ["abc, Song ", "-7", "", " , ", "5,Title", "-9,x", "+3 , t,u", "12"] {
        let rest_chars: Vec<char> = rest.chars().collect();
        let (d, t) = playlist_tidy::m3u::repair_extinf_exec(&rest_chars);
        assert!(d >= -1);
        assert!(!t.is_empty());
        let written: Vec<char> = format!("{},{}", d, t.iter().collect::<String>()).chars().collect();
        let (d2, t2) = playlist_tidy::m3u::parse_extinf_exec(&written).unwrap();
        assert_eq!((d2, t2.clone()), (d, t.clone()));
        if let Ok((pd, pt)) = playlist_tidy::m3u::parse_extinf_exec(&rest_chars) {
            assert_eq!((pd, pt), (d, t));
        }
    }
}
