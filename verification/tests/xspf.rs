use playlist_tidy::{format_xspf, try_format_xspf, Options};

fn strict() -> Options {
    Options { lenient: false }
}

fn lenient() -> Options {
    Options { lenient: true }
}

fn error_of(r: Result<playlist_tidy::FormatResult, playlist_tidy::FormatError>) -> playlist_tidy::FormatError {
    match r {
        Ok(result) => panic!("expected an error, got output {:?}", result.output),
        Err(e) => e,
    }
}

#[test]
fn xspf_passes_through_a_clean_playlist() {
    let input = "<?xml version=\"1.0\" encoding=\"UTF-8\"?>\n\
        <playlist version=\"1\" xmlns=\"http://xspf.org/ns/0/\">\n\
        <trackList>\n\
        <track><location>songs/track.mp3</location><title>Artist - Title</title>\
        <duration>123000</duration></track>\n\
        </trackList>\n\
        </playlist>\n";
    let result = format_xspf(input, &strict()).unwrap();
    assert_eq!(
        result.output,
        "#EXTM3U\n#EXTINF:123,Artist - Title\nsongs/track.mp3\n"
    );
    assert!(result.warnings.is_empty());
}

#[test]
fn xspf_strict_rejects_missing_tracklist() {
    let input = "<?xml version=\"1.0\"?><playlist><track><location>a.mp3</location></track></playlist>";
    assert!(format_xspf(input, &strict()).is_err());
}

#[test]
fn xspf_lenient_scans_document_without_tracklist() {
    let input = "<?xml version=\"1.0\"?><playlist><track><location>a.mp3</location></track></playlist>";
    let result = format_xspf(input, &lenient()).unwrap();
    assert!(result.output.contains("a.mp3"));
    assert!(!result.warnings.is_empty());
}

#[test]
fn xspf_strict_rejects_missing_location() {
    let input = "<playlist><trackList><track><title>No file</title></track></trackList></playlist>";
    assert!(format_xspf(input, &strict()).is_err());
}

#[test]
fn xspf_lenient_skips_track_without_location() {
    let input = "<playlist><trackList>\
        <track><title>No file</title></track>\
        <track><location>b.mp3</location></track>\
        </trackList></playlist>";
    let result = format_xspf(input, &lenient()).unwrap();
    assert!(!result.output.contains("No file"));
    assert!(result.output.contains("b.mp3"));
}

#[test]
fn xspf_missing_duration_defaults_to_unknown_without_warning() {
    let input = "<playlist><trackList><track><location>a.mp3</location></track></trackList></playlist>";
    let result = format_xspf(input, &strict()).unwrap();
    assert!(result.output.contains("#EXTINF:-1,a.mp3"));
    assert!(result.warnings.is_empty());
}

#[test]
fn xspf_converts_milliseconds_to_seconds() {
    let input = "<playlist><trackList><track><location>a.mp3</location><duration>65000</duration></track></trackList></playlist>";
    let result = format_xspf(input, &strict()).unwrap();
    assert!(result.output.contains("#EXTINF:65,"));
}

#[test]
fn xspf_strict_rejects_non_numeric_duration() {
    let input = "<playlist><trackList><track><location>a.mp3</location><duration>long</duration></track></trackList></playlist>";
    assert!(format_xspf(input, &strict()).is_err());
}

#[test]
fn xspf_decodes_entities_and_strips_file_uri() {
    let input = "<playlist><trackList><track>\
        <location>file:///music/AC%26DC/track.mp3</location>\
        <title>Rock &amp; Roll</title>\
        </track></trackList></playlist>";
    let result = format_xspf(input, &strict()).unwrap();
    assert!(result.output.contains("Rock & Roll"));
    assert!(result.output.contains("/music/AC&DC/track.mp3"));
}

#[test]
fn xspf_lenient_converts_backslash_paths() {
    let input = "<playlist><trackList><track><location>C:\\Music\\track.mp3</location></track></trackList></playlist>";
    let result = format_xspf(input, &lenient()).unwrap();
    assert!(result.output.contains("C:/Music/track.mp3"));
}

#[test]
fn xspf_derives_title_when_missing() {
    let input = "<playlist><trackList><track><location>songs/track.mp3</location></track></trackList></playlist>";
    let result = format_xspf(input, &strict()).unwrap();
    assert!(result.output.contains("#EXTINF:-1,track.mp3"));
}

#[test]
fn xspf_comments_self_closing_tracks_and_entities() {
    let input = "\u{feff}<playlist><!-- <trackList><track><location>hidden</location></track></trackList> -->\
        <trackList>\n<track/>\n<trackNumber>9</trackNumber>\
        <track\t><location> file:///a%20b/%C3%A9t%C3%A9.mp3 </location><title>&#x41;&#66;&lt;&bogus;&#xD800;&</title><duration>1999</duration></track>\
        <track><location>http://h/x\\y</location><title>  </title><duration> </duration></track>\
        <track><location>file:///bad%ZZ%e9</location></track>\
        </trackList></playlist>";
    let result = format_xspf(input, &lenient()).unwrap();
    assert_eq!(
        result.output,
        "#EXTM3U\n#EXTINF:1,AB<&bogus;&#xD800;&\n/a b/été.mp3\n#EXTINF:-1,x\\y\nhttp://h/x\\y\n#EXTINF:-1,bad%ZZ%e9\n/bad%ZZ%e9\n"
    );
    assert_eq!(result.warnings, vec!["track 1 has no <location> element".to_string()]);
}

#[test]
fn xspf_error_messages() {
    let e = error_of(format_xspf("<playlist/>", &strict()));
    assert_eq!(e.message, "XSPF file is missing a <trackList> element");
    let e = error_of(format_xspf("<playlist><trackList></trackList></playlist>", &lenient()));
    assert_eq!(e.message, "XSPF file has no <track> entries");
    let e = error_of(format_xspf("<trackList><track><location>a</location><duration>-5</duration></track></trackList>", &strict()));
    assert_eq!(e.message, "track 1 has a non-numeric or negative <duration> (-5)");
    let e = error_of(format_xspf("<trackList><track><location>a\\b</location></track></trackList>", &strict()));
    assert_eq!(e.message, "invalid path for track 1: path uses backslashes instead of forward slashes");
    let e = error_of(format_xspf("<trackList><track><title>t</title></track></trackList>", &strict()));
    assert_eq!(e.message, "track 1 has no <location> element");
    let r = format_xspf("<trackList><track><location>a</location><duration>x</duration></track></trackList>", &lenient()).unwrap();
    assert_eq!(r.output, "#EXTM3U\n#EXTINF:-1,a\na\n");
    assert_eq!(r.warnings, vec!["track 1 has a non-numeric or negative <duration> (x)".to_string()]);
}

#[test]
fn xspf_strict_and_lenient_agree_on_a_clean_playlist() {
    let input = "<playlist><trackList>\
        <track><location>a.mp3</location><title>A</title><duration>1000</duration></track>\
        <track><location>http://h/b</location></track>\
        </trackList></playlist>";
    let s = format_xspf(input, &strict()).unwrap();
    let l = format_xspf(input, &lenient()).unwrap();
    assert_eq!(s.output, "#EXTM3U\n#EXTINF:1,A\na.mp3\n#EXTINF:-1,b\nhttp://h/b\n");
    assert_eq!(s.output, l.output);
    assert!(s.warnings.is_empty() && l.warnings.is_empty());
}

#[test]
fn xspf_lenient_repairs_all_but_a_missing_track() {
    let r = format_xspf("<playlist><track><location>C:\\a.mp3</location><duration>-3</duration></track></playlist>", &lenient()).unwrap();
    assert_eq!(r.output, "#EXTM3U\n#EXTINF:-1,a.mp3\nC:/a.mp3\n");
    assert_eq!(r.warnings.len(), 3);
    assert!(format_xspf("<playlist><track><location>C:\\a.mp3</location></track></playlist>", &strict()).is_err());
    let e = error_of(format_xspf("<playlist></playlist>", &lenient()));
    assert_eq!(e.message, "XSPF file has no <track> entries");
}

#[test]
fn xspf_undecodable_location_is_reported_as_none() {
    let bad = "<trackList><track><location>file:///%a\u{e9}</location></track></trackList>";
    assert!(try_format_xspf(bad, &strict()).is_none());
    assert!(try_format_xspf(bad, &lenient()).is_none());
    let good = "<trackList><track><location>file:///%41\u{e9}</location></track></trackList>";
    let r = try_format_xspf(good, &strict()).unwrap().unwrap();
    assert_eq!(r.output, "#EXTM3U\n#EXTINF:-1,A\u{e9}\n/A\u{e9}\n");
    let e = error_of(try_format_xspf("<playlist/>", &strict()).unwrap());
    assert_eq!(e.message, "XSPF file is missing a <trackList> element");
}

#[test]
fn xspf_output_is_a_clean_m3u_playlist_where_tracks_write_clean() {
    let input = "<playlist><track><location>file:///m/a%20b.mp3</location><title> A &amp; B </title><duration>2500</duration></track>\
        <track><location>C:\\x\\y.mp3</location></track></playlist>";
    for opts in [lenient()] {
        let r = format_xspf(input, &opts).unwrap();
        assert_eq!(r.output, "#EXTM3U\n#EXTINF:2,A & B\n/m/a b.mp3\n#EXTINF:-1,y.mp3\nC:/x/y.mp3\n");
        let again = playlist_tidy::format(&r.output, &strict()).unwrap();
        assert_eq!(again.output, r.output);
        assert!(again.warnings.is_empty());
    }
    let clean = "<trackList><track><location>a.mp3</location><title>A</title></track></trackList>";
    let s = format_xspf(clean, &strict()).unwrap();
    assert_eq!(playlist_tidy::format(&s.output, &strict()).unwrap().output, s.output);
    // a title with an encoded line break does not survive
    let odd = format_xspf("<trackList><track><location>a.mp3</location><title>&#10;x</title></track></trackList>", &strict()).unwrap();
    assert!(playlist_tidy::format(&odd.output, &strict()).map(|r| r.output != odd.output).unwrap_or(true));
}
