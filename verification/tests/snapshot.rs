use music_catalog::codec::{encode_song, parse_song_line};
use music_catalog::music_db::MusicDB;
use music_catalog::song::Song;

fn song(
    path: &str,
    title: &str,
    artist: &str,
    album: &str,
    year: u16,
    comment: &str,
    duration: u64,
    track: Option<u16>,
) -> Song {
    Song::new(
        path.to_string(),
        title.to_string(),
        artist.to_string(),
        album.to_string(),
        year,
        comment.to_string(),
        duration,
        track,
    )
}

fn assert_same_song(a: &Song, b: &Song) {
    assert_eq!(a.id, b.id);
    assert_eq!(a.path, b.path);
    assert_eq!(a.title, b.title);
    assert_eq!(a.artist, b.artist);
    assert_eq!(a.album, b.album);
    assert_eq!(a.year, b.year);
    assert_eq!(a.comment, b.comment);
    assert_eq!(a.duration, b.duration);
    assert_eq!(a.track, b.track);
    assert_eq!(a.title_lower, b.title_lower);
    assert_eq!(a.artist_lower, b.artist_lower);
    assert_eq!(a.album_lower, b.album_lower);
    assert_eq!(a.stem_lower, b.stem_lower);
}

#[test]
fn roundtrip_plain_record() {
    let s = song("m/a.mp3", "Title", "Artist", "Album", 1999, "nice", 245, Some(3));
    let line = encode_song(&s);
    assert!(!line.contains('\n'));
    let back = parse_song_line(&line).expect("line should parse");
    assert_same_song(&s, &back);
}

#[test]
fn roundtrip_missing_track_and_empty_fields() {
    let s = song("x.mp3", "", "", "", 0, "", 0, None);
    let line = encode_song(&s);
    let back = parse_song_line(&line).expect("line should parse");
    assert_same_song(&s, &back);
}

#[test]
fn roundtrip_with_awkward_characters() {
    let s = song(
        "dir with space/tab\there.mp3",
        "Line\nBreak \\ Slash",
        "A\tB",
        "Al\r\nbum",
        2024,
        "c1\tc2\\c3",
        7265,
        Some(12),
    );
    let line = encode_song(&s);
    assert!(!line.contains('\n'));
    let back = parse_song_line(&line).expect("line should parse");
    assert_same_song(&s, &back);
}

#[test]
fn malformed_lines_are_dropped() {
    assert!(parse_song_line("").is_none());
    assert!(parse_song_line("not a record").is_none());
    assert!(parse_song_line("a\tb\tc").is_none());
    // correct field count, junk identity
    let s = song("m/a.mp3", "T", "A", "B", 1999, "", 245, Some(3));
    let line = encode_song(&s);
    let broken = format!("x{}", line);
    assert!(parse_song_line(&broken).is_none());
    // a truncated line loses fields and is dropped
    let cut = &line[..line.len() / 2];
    assert!(parse_song_line(cut).is_none());
}

#[test]
fn snapshot_save_and_reload_reproduce_the_store() {
    let mut db = MusicDB::new();
    db.insert(song("p/a.mp3", "One", "X", "Q", 2001, "", 100, Some(1)));
    db.insert(song("p/b.mp3", "Two", "Y", "R", 2002, "tab\tin comment", 200, None));
    db.insert(song("p/c.mp3", "Three", "Z", "S", 2003, "", 300, Some(3)));
    let lines: Vec<String> = db.records.iter().map(encode_song).collect();
    let mut reloaded = MusicDB::new();
    for line in &lines {
        let s = parse_song_line(line).expect("saved line should parse");
        reloaded.insert(s);
    }
    assert_eq!(db.records.len(), reloaded.records.len());
    for s in &db.records {
        let found = reloaded.find_by_id(s.id).expect("identity should survive");
        assert_same_song(s, found);
    }
}
