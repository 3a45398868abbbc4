use playlist_tidy::{format_pls, Options};

fn strict() -> Options {
    Options { lenient: false }
}

fn lenient() -> Options {
    Options { lenient: true }
}

fn error_of(r: Result<playlist_tidy::FormatResult, playlist_tidy::FormatError>) -> playlist_tidy::FormatError {
    match r {
        Ok(result) => panic!("expected an error, got output {:?}", result.output),
        Err(e) => e,
    }
}

#[test]
fn pls_passes_through_a_clean_playlist() {
    let input = "[playlist]\nFile1=songs/track.mp3\nTitle1=Artist - Title\nLength1=123\nNumberOfEntries=1\nVersion=2\n";
    let result = format_pls(input, &strict()).unwrap();
    assert_eq!(result.output, "#EXTM3U\n#EXTINF:123,Artist - Title\nsongs/track.mp3\n");
    assert!(result.warnings.is_empty());
}

#[test]
fn pls_strict_rejects_missing_header() {
    let input = "File1=track.mp3\nTitle1=Title\nLength1=1\nNumberOfEntries=1\n";
    assert!(format_pls(input, &strict()).is_err());
}

#[test]
fn pls_lenient_assumes_missing_header() {
    let input = "File1=track.mp3\nTitle1=Title\nLength1=1\nNumberOfEntries=1\n";
    let result = format_pls(input, &lenient()).unwrap();
    assert!(result.output.contains("track.mp3"));
    assert!(!result.warnings.is_empty());
}

#[test]
fn pls_strict_rejects_entry_count_mismatch() {
    let input = "[playlist]\nFile1=a.mp3\nTitle1=A\nLength1=1\nNumberOfEntries=2\n";
    assert!(format_pls(input, &strict()).is_err());
}

#[test]
fn pls_lenient_converts_backslash_paths() {
    let input = "[playlist]\nFile1=C:\\Music\\track.mp3\nTitle1=Title\nLength1=1\nNumberOfEntries=1\n";
    let result = format_pls(input, &lenient()).unwrap();
    assert!(result.output.contains("C:/Music/track.mp3"));
}

#[test]
fn pls_lenient_fills_in_missing_title_and_length() {
    let input = "[playlist]\nFile1=songs/track.mp3\nNumberOfEntries=1\n";
    let result = format_pls(input, &lenient()).unwrap();
    assert!(result.output.contains("#EXTINF:-1,track.mp3\nsongs/track.mp3"));
}

#[test]
fn pls_strict_rejects_missing_title() {
    let input = "[playlist]\nFile1=songs/track.mp3\nLength1=10\nNumberOfEntries=1\n";
    assert!(format_pls(input, &strict()).is_err());
}

#[test]
fn pls_orders_entries_by_index_not_by_appearance() {
    let input = "[playlist]\nFile2=b.mp3\nTitle2=B\nLength2=2\nFile1=a.mp3\nTitle1=A\nLength1=1\nNumberOfEntries=2\n";
    let result = format_pls(input, &strict()).unwrap();
    let a_pos = result.output.find("a.mp3").unwrap();
    let b_pos = result.output.find("b.mp3").unwrap();
    assert!(a_pos < b_pos);
}

#[test]
fn pls_error_messages() {
    let e = error_of(format_pls("[playlist]\nFile1=a.mp3\nTitle1=A\nLength1=1\nNumberOfEntries=2\n", &strict()));
    assert_eq!(e.message, "NumberOfEntries says 2 but 1 entries were found");
    let e = error_of(format_pls("[playlist]\nFile1=a.mp3\nTitle1=A\nLength1=1\n", &strict()));
    assert_eq!(e.message, "PLS file has no NumberOfEntries");
    let e = error_of(format_pls("[playlist]\nNumberOfEntries=0\n", &lenient()));
    assert_eq!(e.message, "PLS file has no entries");
    let e = error_of(format_pls("[playlist]\nbogus line\n", &strict()));
    assert_eq!(e.message, "line 2 is not a key=value pair: 'bogus line'");
    let e = error_of(format_pls("\n\n[PlayList]\nLength3=x\n", &strict()));
    assert_eq!(e.message, "Length3 at line 4 is not an integer: 'x'");
    let e = error_of(format_pls("[playlist]\nNumberOfEntries=many\n", &strict()));
    assert_eq!(e.message, "NumberOfEntries at line 2 is not an integer: 'many'");
    let e = error_of(format_pls("[playlist]\nColor=red\n", &strict()));
    assert_eq!(e.message, "unrecognized key at line 2: 'Color'");
    let e = error_of(format_pls("[playlist]\nTitle1=A\nLength1=1\nNumberOfEntries=1\n", &strict()));
    assert_eq!(e.message, "entry 1 has no File1 key");
    let e = error_of(format_pls("[playlist]\nFile1=a\\b\nTitle1=A\nLength1=1\nNumberOfEntries=1\n", &strict()));
    assert_eq!(e.message, "invalid path for entry 1: path uses backslashes instead of forward slashes");
    let e = error_of(format_pls("[playlist]\nFile1=a\nTitle1=A\nLength1=-3\nNumberOfEntries=1\n", &strict()));
    assert_eq!(e.message, "entry 1 has a negative Length1 (-3)");
    let e = error_of(format_pls("[playlist]\nFile1=a\nTitle1=A\nNumberOfEntries=1\n", &strict()));
    assert_eq!(e.message, "entry 1 has no Length1 key");
    let e = error_of(format_pls("File1=a\n", &strict()));
    assert_eq!(e.message, "PLS file is missing the [playlist] header");
}

#[test]
fn pls_lenient_reports_every_repair_in_order() {
    let input = "\u{feff}\r\n [PLAYLIST] \r\nfile07 = x\\y.mp3\r\nTITLE07=\r\nlength07=-9\r\nLength9=abc\r\nwhat\r\nVersion=2\r\nKey=1\r\nNumberOfEntries=+5\r\n";
    let result = format_pls(input, &lenient()).unwrap();
    assert_eq!(result.output, "#EXTM3U\n#EXTINF:-1,y.mp3\nx/y.mp3\n");
    assert_eq!(
        result.warnings,
        vec![
            "Length9 at line 6 is not an integer: 'abc'".to_string(),
            "line 7 is not a key=value pair: 'what'".to_string(),
            "unrecognized key at line 9: 'Key'".to_string(),
            "NumberOfEntries says 5 but 2 entries were found".to_string(),
            "repaired path for entry 7 (path uses backslashes instead of forward slashes)".to_string(),
            "entry 7 has no Title7 key".to_string(),
            "entry 7 has a negative Length7 (-9)".to_string(),
            "entry 9 has no File9 key".to_string(),
        ]
    );
}

#[test]
fn pls_lenient_without_count_and_strict_agreement() {
    let input = "[playlist]\nFile1=a.mp3\nTitle1=A\nLength1=1\n";
    let result = format_pls(input, &lenient()).unwrap();
    assert_eq!(result.output, "#EXTM3U\n#EXTINF:1,A\na.mp3\n");
    assert_eq!(result.warnings, vec!["missing NumberOfEntries, inferred from entries found".to_string()]);
    let clean = "[playlist]\nFile3=http://x/y\nTitle3= T \nLength3=0\nFile1=a.mp3\nTitle1=A\nLength1=-1\nNumberOfEntries=2\n";
    let s = format_pls(clean, &strict()).unwrap();
    let l = format_pls(clean, &lenient()).unwrap();
    assert_eq!(s.output, "#EXTM3U\n#EXTINF:-1,A\na.mp3\n#EXTINF:0,T\nhttp://x/y\n");
    assert_eq!(s.output, l.output);
    assert!(s.warnings.is_empty() && l.warnings.is_empty());
}

#[test]
fn pls_lenient_still_rejects_a_playlist_without_entries() {
    let input = "[playlist]\nNumberOfEntries=0\nVersion=2\n";
    let e = error_of(format_pls(input, &lenient()));
    assert_eq!(e.message, "PLS file has no entries");
    let e = error_of(format_pls("", &lenient()));
    assert_eq!(e.message, "PLS file has no entries");
    let e = error_of(format_pls(input, &strict()));
    assert_eq!(e.message, "PLS file has no entries");
}

#[test]
fn pls_output_always_starts_with_the_header() {
    for input in [
        "[playlist]\nFile1=a.mp3\nTitle1=A\nLength1=1\nNumberOfEntries=1\n",
        "File2=b\\c.mp3\n",
        "junk\nFile1=x\n",
    ] {
        let r = format_pls(input, &lenient()).unwrap();
        assert!(r.output.starts_with("#EXTM3U\n"));
    }
}

#[test]
fn pls_strict_output_is_a_clean_m3u_playlist() {
    let input = "[playlist]\nFile2=http://h/b\nTitle2= B, the second \nLength2=-1\nFile1=a b.mp3\nTitle1=A\nLength1=7\nNumberOfEntries=2\n";
    let r = format_pls(input, &strict()).unwrap();
    assert_eq!(r.output, "#EXTM3U\n#EXTINF:7,A\na b.mp3\n#EXTINF:-1,B, the second\nhttp://h/b\n");
    let again = playlist_tidy::format(&r.output, &strict()).unwrap();
    assert_eq!(again.output, r.output);
    assert!(again.warnings.is_empty());
    // a file value that reads as an M3U directive does not survive
    let odd = format_pls("[playlist]\nFile1=#x.mp3\nTitle1=X\nLength1=1\nNumberOfEntries=1\n", &strict()).unwrap();
    assert!(playlist_tidy::format(&odd.output, &strict()).is_err());
}

#[test]
fn pls_lenient_output_is_a_clean_m3u_playlist() {
    let input = "File1=a\\b.mp3\nLength1=zz\nTitle2=T\nFile2=http://h/x\n";
    let r = format_pls(input, &lenient()).unwrap();
    assert_eq!(r.output, "#EXTM3U\n#EXTINF:-1,b.mp3\na/b.mp3\n#EXTINF:-1,T\nhttp://h/x\n");
    let again = playlist_tidy::format(&r.output, &strict()).unwrap();
    assert_eq!(again.output, r.output);
    assert!(again.warnings.is_empty());
}

#[test]
fn pls_lenient_fails_exactly_when_no_line_defines_an_entry() {
    let e = error_of(format_pls("[playlist]\nfoo=1\nNumberOfEntries=3\nFile=x\nFileA=y\n", &lenient()));
    assert_eq!(e.message, "PLS file has no entries");
    let r = format_pls("[playlist]\n LENGTH3 = zz\n", &lenient()).unwrap();
    assert_eq!(r.output, "#EXTM3U\n");
    assert!(format_pls("title0=x\n", &lenient()).is_ok());
}
