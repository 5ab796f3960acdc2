use rusty_sort::rules::{Category, Rules};

#[test]
fn classify_images() {
    let rules = Rules::default();
    assert_eq!(rules.classify("photo.JPG"), Category::Images);
    assert_eq!(rules.classify("icon.png"), Category::Images);
}

#[test]
fn classify_documents() {
    let rules = Rules::default();
    assert_eq!(rules.classify("report.pdf"), Category::Documents);
    assert_eq!(rules.classify("notes.md"), Category::Documents);
}

#[test]
fn classify_videos() {
    let rules = Rules::default();
    assert_eq!(rules.classify("movie.mkv"), Category::Videos);
    assert_eq!(rules.classify("clip.MP4"), Category::Videos);
}

#[test]
fn classify_audio() {
    let rules = Rules::default();
    assert_eq!(rules.classify("song.mp3"), Category::Audio);
    assert_eq!(rules.classify("voice.WAV"), Category::Audio);
}

#[test]
fn classify_archives() {
    let rules = Rules::default();
    assert_eq!(rules.classify("backup.zip"), Category::Archives);
    assert_eq!(rules.classify("bundle.tar"), Category::Archives);
}

#[test]
fn classify_others() {
    let rules = Rules::default();
    assert_eq!(rules.classify("file"), Category::Others);
    assert_eq!(rules.classify("weird.ext"), Category::Others);
}

#[test]
fn classify_uses_the_last_extension() {
    let rules = Rules::default();
    assert_eq!(rules.classify("archive.tar.gz"), Category::Archives);
    assert_eq!(rules.classify("dir/photo.backup.jpeg"), Category::Images);
}

#[test]
fn classify_hidden_and_dot_edge_cases() {
    let rules = Rules::default();
    // A leading dot alone is no extension.
    assert_eq!(rules.classify(".gitignore"), Category::Others);
    // A trailing dot is an empty extension, which no rule maps.
    assert_eq!(rules.classify("dir/file."), Category::Others);
    // A hidden file with a second dot has an extension after all.
    assert_eq!(rules.classify(".hidden.png"), Category::Images);
}

#[test]
fn classify_ignores_directories_in_the_path() {
    let rules = Rules::default();
    assert_eq!(rules.classify("a.mp3/b.pdf"), Category::Documents);
    assert_eq!(rules.classify("deep/nested/dir/tune.flac"), Category::Audio);
}
