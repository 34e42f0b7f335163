use beatmap_tools::config::beatmap_directory;

fn lines(ls: &[&str]) -> Vec<Vec<u8>> {
    ls.iter().map(|l| l.as_bytes().to_vec()).collect()
}

#[test]
fn directory_line_names_the_root() {
    let cfg = lines(&["Fullscreen = 1", "BeatmapDirectory = Songs2", "Volume = 3"]);
    assert_eq!(beatmap_directory(&cfg), b"Songs2".to_vec());
}

#[test]
fn first_matching_line_wins() {
    let cfg = lines(&["BeatmapDirectory=First", "BeatmapDirectory=Second"]);
    assert_eq!(beatmap_directory(&cfg), b"First".to_vec());
}

#[test]
fn missing_line_falls_back_to_default() {
    let cfg = lines(&["Fullscreen = 1"]);
    assert_eq!(beatmap_directory(&cfg), b"Songs".to_vec());
    let empty: Vec<Vec<u8>> = Vec::new();
    assert_eq!(beatmap_directory(&empty), b"Songs".to_vec());
}

#[test]
fn value_stops_at_second_equals_sign() {
    let cfg = lines(&["BeatmapDirectory=Some=Where"]);
    assert_eq!(beatmap_directory(&cfg), b"Some".to_vec());
}

#[test]
fn value_is_trimmed_of_surrounding_whitespace() {
    let cfg = lines(&["BeatmapDirectory = \t my maps \t "]);
    assert_eq!(beatmap_directory(&cfg), b"my maps".to_vec());
}

#[test]
fn key_line_without_equals_sign_is_passed_over() {
    let cfg = lines(&["BeatmapDirectory", "BeatmapDirectory=Real"]);
    assert_eq!(beatmap_directory(&cfg), b"Real".to_vec());
}
