use speaker_studio::speakers::{clean_name, default_speaker_name};
use speaker_studio::text::{
    allowed_ext, clean_title, html_escape, percent_of, percent_of_panics, short_gpu, short_line,
    video_ext,
};

#[test]
fn titles_are_one_trimmed_line() {
    assert_eq!(clean_title("  Game night\r\nsession 2 \t"), "Game night  session 2");
    assert_eq!(clean_title(" \n\t "), "Untitled");
    assert_eq!(clean_title(""), "Untitled");
    let long: String = "é".repeat(200);
    assert_eq!(clean_title(&long).chars().count(), 140);
}

#[test]
fn names_fall_back_to_the_default() {
    assert_eq!(clean_name("  Greg - Ruthgar the Invincible - Barbarian ", 0), "Greg - Ruthgar the Invincible - Barbarian");
    assert_eq!(clean_name("   ", 3), "Speaker 4");
    assert_eq!(clean_name("", 8), "Me");
    assert_eq!(clean_name("a\nb", 1), "a b");
    assert_eq!(clean_name(&"x".repeat(300), 1).len(), 160);
}

#[test]
fn default_names() {
    assert_eq!(default_speaker_name(0), "Speaker 1");
    assert_eq!(default_speaker_name(9), "Speaker 10");
    assert_eq!(default_speaker_name(253), "Speaker 254");
    assert_eq!(default_speaker_name(8), "Me");
    assert_eq!(default_speaker_name(254), "Overlap");
    assert_eq!(default_speaker_name(255), "Unassigned");
}

#[test]
fn status_lines_are_short() {
    assert_eq!(short_line("\n  \r\n  Loading model  \nmore"), "Loading model");
    assert_eq!(short_line(" \n \n"), "");
    let long = "w".repeat(200);
    let cut = short_line(&long);
    assert_eq!(cut.chars().count(), 178);
    assert!(cut.ends_with('…'));
    assert_eq!(short_line(&"w".repeat(180)), "w".repeat(180));
}

#[test]
fn gpu_names() {
    assert_eq!(short_gpu("NVIDIA GeForce RTX 4090 Laptop GPU"), "RTX 4090");
    assert_eq!(short_gpu("nvidia geforce gtx 1080 ti"), "GTX 1080");
    assert_eq!(short_gpu("Quadro RTX"), "RTX");
    assert_eq!(short_gpu("Intel Arc"), "Intel Arc");
    assert_eq!(short_gpu(""), "GPU");
}

#[test]
fn download_progress() {
    assert_eq!(percent_of("[download]  45.2% of 10.00MiB"), Some("45.2".to_string()));
    assert_eq!(percent_of("[download] 100% done"), Some("100".to_string()));
    assert_eq!(percent_of("45.2%"), None);
    assert_eq!(percent_of("[download] x% of"), None);
    assert_eq!(percent_of("no progress here"), None);
    assert!(!percent_of_panics("[download] 5%"));
    assert!(percent_of_panics("é5%"));
}

#[test]
fn escaping() {
    assert_eq!(html_escape("<b>\"Tom\" & 'Jerry'</b>"), "&lt;b&gt;&quot;Tom&quot; &amp; 'Jerry'&lt;/b&gt;");
    assert_eq!(html_escape("&amp;"), "&amp;amp;");
    assert_eq!(html_escape(""), "");
}

#[test]
fn media_extensions() {
    for ext in ["mp4", "webm", "m4v", "mov", "ogv"] {
        assert!(video_ext(ext));
    }
    assert!(!video_ext("mkv"));
    assert!(!video_ext("MP4"));
    for ext in ["wav", "mp3", "m4a", "aac", "flac", "ogg", "opus", "webm", "mp4", "m4v", "mov", "mkv", "avi"] {
        assert!(allowed_ext(ext));
    }
    assert!(!allowed_ext("ogv"));
    assert!(!allowed_ext("png"));
    assert!(!allowed_ext(""));
}
