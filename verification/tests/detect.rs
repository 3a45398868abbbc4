use playlist_tidy::{detect_input_format, InputFormat};
use playlist_tidy::detect::is_playlist_extension;

#[test]
fn detects_format_from_extension() {
    assert_eq!(detect_input_format("mix.pls", ""), InputFormat::Pls);
    assert_eq!(detect_input_format("mix.m3u8", ""), InputFormat::M3u);
}

#[test]
fn detects_pls_from_content_when_extension_is_ambiguous() {
    let content = "[playlist]\nFile1=track.mp3\n";
    assert_eq!(detect_input_format("-", content), InputFormat::Pls);
    assert_eq!(detect_input_format("-", "#EXTM3U\n"), InputFormat::M3u);
}

#[test]
fn detects_xspf_from_extension_and_content() {
    assert_eq!(detect_input_format("mix.xspf", ""), InputFormat::Xspf);
    assert_eq!(
        detect_input_format("-", "<?xml version=\"1.0\"?>\n<playlist></playlist>"),
        InputFormat::Xspf
    );
    assert_eq!(
        detect_input_format("-", "<playlist xmlns=\"http://xspf.org/ns/0/\">"),
        InputFormat::Xspf
    );
}

#[test]
fn extension_wins_over_content_and_ignores_case() {
    assert_eq!(detect_input_format("MIX.PLS", "<?xml?>"), InputFormat::Pls);
    assert_eq!(detect_input_format("a/b.XSPF", "[playlist]"), InputFormat::Xspf);
    assert_eq!(detect_input_format("x.M3U", "[playlist]"), InputFormat::M3u);
    assert_eq!(detect_input_format("list.txt", "\u{feff}\r\n  \r\n  [PlayList]  \r\n"), InputFormat::Pls);
    assert_eq!(detect_input_format("list.txt", "\n\n<PLAYLIST>"), InputFormat::Xspf);
    assert_eq!(detect_input_format("list.txt", "<?XML"), InputFormat::M3u);
    assert_eq!(detect_input_format("list.txt", "   \n\t\n"), InputFormat::M3u);
}

#[test]
fn playlist_extensions_ignore_ascii_case() {
    for ext in ["m3u", "M3U", "m3u8", "Pls", "XSPF"] {
        assert!(is_playlist_extension(ext));
    }
    for ext in ["", "mp3", "m3", "m3u88", "xspf ", "txt"] {
        assert!(!is_playlist_extension(ext));
    }
}

#[test]
fn process_content_dispatches_on_the_detected_format() {
    let opts = playlist_tidy::Options { lenient: false };
    let pls = "[playlist]\nFile1=a.mp3\nTitle1=A\nLength1=1\nNumberOfEntries=1\n";
    let r = playlist_tidy::process_content(pls, "-", &opts).unwrap().unwrap();
    assert_eq!(r.output, "#EXTM3U\n#EXTINF:1,A\na.mp3\n");
    let xspf = "<playlist><trackList><track><location>b.mp3</location></track></trackList></playlist>";
    let r = playlist_tidy::process_content(xspf, "mix.xspf", &opts).unwrap().unwrap();
    assert_eq!(r.output, "#EXTM3U\n#EXTINF:-1,b.mp3\nb.mp3\n");
    let m3u = "#EXTM3U\n#EXTINF:3,C\nc.mp3\n";
    let r = playlist_tidy::process_content(m3u, "mix.M3U8", &opts).unwrap().unwrap();
    assert_eq!(r.output, m3u);
    let bad = "<trackList><track><location>file:///%a\u{e9}</location></track></trackList>";
    assert!(playlist_tidy::process_content(bad, "x.xspf", &opts).is_none());
    let e = playlist_tidy::process_content("junk", "x.pls", &opts).unwrap();
    assert!(e.is_err());
}
