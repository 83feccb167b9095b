use music_catalog::music_db::{KnownPaths, MusicDB};
use music_catalog::query::SearchTerms;
use music_catalog::song::{Song, SongResult, SortBy};
use std::cmp::Ordering;

fn song(
    path: &str,
    title: &str,
    artist: &str,
    album: &str,
    year: u16,
    comment: &str,
    duration: u64,
    track: Option<u16>,
) -> Song {
    Song::new(
        path.to_string(),
        title.to_string(),
        artist.to_string(),
        album.to_string(),
        year,
        comment.to_string(),
        duration,
        track,
    )
}

fn terms() -> SearchTerms {
    SearchTerms {
        artist: None,
        album: None,
        term: None,
        limit: None,
        sort_by: None,
        after: None,
    }
}

#[test]
fn song_new_fixes_derived_fields() {
    let s = song(
        "Music/11 Everlong.mp3",
        "Everlong",
        "Foo Fighters",
        "The Colour And The Shape",
        1997,
        "",
        250,
        Some(11),
    );
    assert_eq!(s.title_lower, "everlong");
    assert_eq!(s.artist_lower, "foo fighters");
    assert_eq!(s.album_lower, "the colour and the shape");
    assert_eq!(s.stem_lower, "11 everlong");
}

#[test]
fn identity_is_deterministic_and_content_derived() {
    let a = song("x/Track.mp3", "T", "A", "B", 2000, "c", 100, Some(1));
    let b = song("x/Track.mp3", "T", "A", "B", 2000, "c", 100, Some(1));
    assert_eq!(a.id, b.id);
    // moving the file to another directory keeps the tags and the file
    // name, so the identity is unchanged
    let moved = song("y/z/Track.mp3", "T", "A", "B", 2000, "c", 100, Some(1));
    assert_eq!(a.id, moved.id);
    // changing a tag changes the identity
    let retitled = song("x/Track.mp3", "T2", "A", "B", 2000, "c", 100, Some(1));
    assert_ne!(a.id, retitled.id);
}

#[test]
fn duration_formatting() {
    let mut s = song("a/b.mp3", "t", "a", "b", 0, "", 0, None);
    assert_eq!(s.duration_formatted(), "00:00");
    s.duration = 65;
    assert_eq!(s.duration_formatted(), "01:05");
    s.duration = 3725;
    assert_eq!(s.duration_formatted(), "1:02:05");
    // a full hour count: whole days are not dropped
    s.duration = 90000;
    assert_eq!(s.duration_formatted(), "25:00:00");
    s.duration = 86400;
    assert_eq!(s.duration_formatted(), "24:00:00");
}

#[test]
fn file_stem_cases() {
    let s = song("a/b/c.mp3", "t", "a", "b", 0, "", 1, None);
    assert_eq!(s.file_stem().as_deref(), Some("c"));
    let s2 = song("noext", "t", "a", "b", 0, "", 1, None);
    assert_eq!(s2.file_stem().as_deref(), Some("noext"));
    let s3 = song("dir/.hidden", "t", "a", "b", 0, "", 1, None);
    assert_eq!(s3.file_stem().as_deref(), Some(".hidden"));
    // trailing separators are ignored, as std's file_stem does
    let s4 = song("dir/", "t", "a", "b", 0, "", 1, None);
    assert_eq!(s4.file_stem().as_deref(), Some("dir"));
    let s5 = song("a/b.mp3//", "t", "a", "b", 0, "", 1, None);
    assert_eq!(s5.file_stem().as_deref(), Some("b"));
    let s6 = song("/", "t", "a", "b", 0, "", 1, None);
    assert_eq!(s6.file_stem(), None);
    let s7 = song("", "t", "a", "b", 0, "", 1, None);
    assert_eq!(s7.file_stem(), None);
}

#[test]
fn get_track_parses_tag_values() {
    assert_eq!(Song::get_track(Some(&"3/12".to_string())), Some(3));
    assert_eq!(Song::get_track(Some(&"7".to_string())), Some(7));
    assert_eq!(Song::get_track(Some(&"x".to_string())), None);
    assert_eq!(Song::get_track(Some(&"".to_string())), None);
    assert_eq!(Song::get_track(Some(&"99999".to_string())), None);
    assert_eq!(Song::get_track(None), None);
}

#[test]
fn cmp_orders_by_key_and_tie_breaks() {
    let a = song("1.mp3", "Intro", "A", "X", 0, "", 100, Some(1));
    let c = song("2.mp3", "Alt Intro", "A", "X", 0, "", 120, Some(1));
    let b = song("3.mp3", "Verse", "A", "X", 0, "", 90, Some(2));
    // equal track: the title decides
    assert_eq!(c.cmp(&a, SortBy::track), Ordering::Less);
    assert_eq!(a.cmp(&b, SortBy::track), Ordering::Less);
    // missing track sorts lowest
    let n = song("4.mp3", "Zed", "A", "X", 0, "", 80, None);
    assert_eq!(n.cmp(&a, SortBy::track), Ordering::Less);
    // by duration
    assert_eq!(b.cmp(&a, SortBy::duration), Ordering::Less);
    // a record never sorts strictly before itself
    assert_eq!(a.cmp(&a, SortBy::title), Ordering::Equal);
}

#[test]
fn insert_replaces_by_identity() {
    let mut db = MusicDB::new();
    let s = song("a.mp3", "T", "A", "B", 0, "", 10, None);
    let dup = song("a.mp3", "T", "A", "B", 0, "", 10, None);
    db.insert(s);
    db.insert(dup);
    assert_eq!(db.records.len(), 1);
    let other = song("b.mp3", "U", "A", "B", 0, "", 10, None);
    db.insert(other);
    assert_eq!(db.records.len(), 2);
}

#[test]
fn merge_unions_by_identity() {
    let mut d1 = MusicDB::new();
    d1.insert(song("a.mp3", "T", "A", "B", 0, "", 10, None));
    d1.insert(song("b.mp3", "U", "A", "B", 0, "", 10, None));
    let mut d2 = MusicDB::new();
    d2.insert(song("b.mp3", "U", "A", "B", 0, "", 10, None));
    d2.insert(song("c.mp3", "V", "A", "B", 0, "", 10, None));
    let merged = d1.merge(d2);
    assert_eq!(merged.records.len(), 3);
}

#[test]
fn find_and_resolve_paths_by_identity() {
    let mut db = MusicDB::new();
    let s = song("dir/a.mp3", "T", "A", "B", 0, "", 10, None);
    let id = s.id;
    db.insert(s);
    assert_eq!(db.path_for_id(id).as_deref(), Some("dir/a.mp3"));
    assert!(db.find_by_id(id).is_some());
    assert!(db.find_by_id(id.wrapping_add(1)).is_none());
    assert_eq!(db.path_for_id(id.wrapping_add(1)), None);
}

#[test]
fn known_paths_skip_rescans() {
    let mut db = MusicDB::new();
    let mut known = KnownPaths::new();
    let s = song("m/a.mp3", "T", "A", "B", 0, "", 10, None);
    assert!(MusicDB::should_parse(&known, &"m/a.mp3".to_string(), false));
    db.record_scanned(&mut known, s);
    // an unchanged known file is skipped on the next pass
    assert!(!MusicDB::should_parse(&known, &"m/a.mp3".to_string(), false));
    // unless a rescan is forced
    assert!(MusicDB::should_parse(&known, &"m/a.mp3".to_string(), true));
    assert!(known.knows(&"m/a.mp3".to_string()));
    assert!(!known.knows(&"m/b.mp3".to_string()));
}

#[test]
fn seeding_known_paths_from_a_store() {
    let mut db = MusicDB::new();
    db.insert(song("p/a.mp3", "T", "A", "B", 0, "", 10, None));
    db.insert(song("p/b.mp3", "U", "A", "B", 0, "", 10, None));
    let known = KnownPaths::seed_from(&db);
    assert!(known.knows(&"p/a.mp3".to_string()));
    assert!(known.knows(&"p/b.mp3".to_string()));
    assert!(!known.knows(&"p/c.mp3".to_string()));
}

#[test]
fn rescanning_unchanged_files_is_idempotent() {
    let mut db = MusicDB::new();
    let mut known = KnownPaths::new();
    db.record_scanned(&mut known, song("m/a.mp3", "T", "A", "B", 1, "", 10, Some(1)));
    db.record_scanned(&mut known, song("m/b.mp3", "U", "A", "B", 2, "", 20, Some(2)));
    let ids: Vec<u64> = db.records.iter().map(|s| s.id).collect();
    // a second scan pass over the same unchanged files
    db.record_scanned(&mut known, song("m/a.mp3", "T", "A", "B", 1, "", 10, Some(1)));
    db.record_scanned(&mut known, song("m/b.mp3", "U", "A", "B", 2, "", 20, Some(2)));
    let ids2: Vec<u64> = db.records.iter().map(|s| s.id).collect();
    assert_eq!(ids, ids2);
    assert_eq!(db.records.len(), 2);
}

#[test]
fn three_records_sort_by_track_then_title() {
    let mut db = MusicDB::new();
    db.insert(song("1.mp3", "Intro", "A", "X", 0, "", 100, Some(1)));
    db.insert(song("2.mp3", "Verse", "A", "X", 0, "", 110, Some(2)));
    db.insert(song("3.mp3", "Alt Intro", "A", "X", 0, "", 120, Some(1)));
    let r = db.query(terms());
    let titles: Vec<&str> = r.results.iter().map(|x| x.title.as_str()).collect();
    assert_eq!(titles, vec!["Alt Intro", "Intro", "Verse"]);
    assert!(!r.has_more);
}

#[test]
fn case_insensitive_artist_filter() {
    let mut db = MusicDB::new();
    db.insert(song("1.mp3", "Help", "The Beatles", "Help!", 1965, "", 100, Some(1)));
    db.insert(song("2.mp3", "Other", "Someone", "Else", 1970, "", 100, Some(1)));
    let mut t1 = terms();
    t1.artist = Some("The Beatles".to_string());
    let mut t2 = terms();
    t2.artist = Some("the beatles".to_string());
    let r1 = db.query(t1);
    let r2 = db.query(t2);
    let titles1: Vec<&str> = r1.results.iter().map(|x| x.title.as_str()).collect();
    let titles2: Vec<&str> = r2.results.iter().map(|x| x.title.as_str()).collect();
    assert_eq!(titles1, vec!["Help"]);
    assert_eq!(titles1, titles2);
    assert_eq!(r1.has_more, r2.has_more);
}

#[test]
fn free_text_term_matches_any_field() {
    let mut db = MusicDB::new();
    db.insert(song("1.mp3", "Everlong", "Foo Fighters", "TCATS", 1997, "", 100, Some(1)));
    db.insert(song("2.mp3", "Word", "Everclear", "Album", 1998, "", 100, Some(1)));
    db.insert(song("3.mp3", "None", "Nobody", "Nothing", 1999, "", 100, Some(1)));
    let mut t = terms();
    t.term = Some("EVER".to_string());
    let r = db.query(t);
    assert_eq!(r.results.len(), 2);
    let mut t2 = terms();
    t2.term = Some("zzz".to_string());
    assert_eq!(db.query(t2).results.len(), 0);
}

#[test]
fn free_text_term_matches_the_filename_stem() {
    let mut db = MusicDB::new();
    db.insert(song("m/Live At Wembley.mp3", "", "A", "X", 0, "", 100, Some(1)));
    db.insert(song("m/other.mp3", "Title", "A", "X", 0, "", 100, Some(2)));
    let mut t = terms();
    t.term = Some("wembley".to_string());
    let r = db.query(t);
    assert_eq!(r.results.len(), 1);
    assert_eq!(r.results[0].title, "Live At Wembley");
}

#[test]
fn sort_by_duration() {
    let mut db = MusicDB::new();
    db.insert(song("1.mp3", "Long", "A", "X", 0, "", 300, Some(1)));
    db.insert(song("2.mp3", "Short", "A", "X", 0, "", 30, Some(2)));
    db.insert(song("3.mp3", "Middle", "A", "X", 0, "", 100, Some(3)));
    let mut t = terms();
    t.sort_by = Some(SortBy::duration);
    let r = db.query(t);
    let titles: Vec<&str> = r.results.iter().map(|x| x.title.as_str()).collect();
    assert_eq!(titles, vec!["Short", "Middle", "Long"]);
}

#[test]
fn limit_truncates_and_flags_more() {
    let mut db = MusicDB::new();
    db.insert(song("1.mp3", "A", "A", "X", 0, "", 100, Some(1)));
    db.insert(song("2.mp3", "B", "A", "X", 0, "", 100, Some(2)));
    db.insert(song("3.mp3", "C", "A", "X", 0, "", 100, Some(3)));
    let mut t = terms();
    t.limit = Some(2);
    let r = db.query(t);
    assert_eq!(r.results.len(), 2);
    assert!(r.has_more);
}

#[test]
fn pagination_covers_everything_exactly_once() {
    let mut db = MusicDB::new();
    for i in 0..7u16 {
        db.insert(song(
            &format!("{}.mp3", i),
            &format!("Song {}", i),
            "A",
            "X",
            2000,
            "",
            100 + i as u64,
            Some(i + 1),
        ));
    }
    let mut seen: Vec<String> = Vec::new();
    let mut after: Option<u64> = None;
    let mut pages = 0;
    loop {
        let t = SearchTerms {
            artist: None,
            album: None,
            term: None,
            limit: Some(3),
            sort_by: Some(SortBy::track),
            after,
        };
        let r = db.query(t);
        for x in &r.results {
            seen.push(x.title.clone());
        }
        pages += 1;
        assert!(pages <= 10, "pagination did not terminate");
        if r.has_more {
            after = Some(r.results.last().unwrap().id.parse::<u64>().unwrap());
        } else {
            break;
        }
    }
    let expected: Vec<String> = (0..7u16).map(|i| format!("Song {}", i)).collect();
    assert_eq!(seen, expected);
}

#[test]
fn unknown_cursor_means_no_cursor() {
    let mut db = MusicDB::new();
    db.insert(song("1.mp3", "A", "A", "X", 0, "", 100, Some(1)));
    db.insert(song("2.mp3", "B", "A", "X", 0, "", 100, Some(2)));
    let mut t = terms();
    t.after = Some(424242);
    let r = db.query(t);
    assert_eq!(r.results.len(), 2);
}

#[test]
fn artist_facet_ignores_truncation() {
    let mut db = MusicDB::new();
    db.insert(song("1.mp3", "S1", "X", "One", 0, "", 100, Some(1)));
    db.insert(song("2.mp3", "S2", "X", "Two", 0, "", 100, Some(2)));
    db.insert(song("3.mp3", "S3", "Y", "Three", 0, "", 100, Some(3)));
    let mut t = terms();
    t.artist = Some("X".to_string());
    t.limit = Some(1);
    let r = db.query(t);
    assert_eq!(r.results.len(), 1);
    let facet = r.other_albums.expect("artist facet expected");
    assert_eq!(facet.len(), 2);
    assert!(facet.contains(&"One".to_string()));
    assert!(facet.contains(&"Two".to_string()));
}

#[test]
fn album_facet_lists_shared_artists_other_albums() {
    let mut db = MusicDB::new();
    db.insert(song("1.mp3", "S1", "X", "Q", 0, "", 100, Some(1)));
    db.insert(song("2.mp3", "S2", "X", "R", 0, "", 100, Some(2)));
    db.insert(song("3.mp3", "S3", "Y", "Q", 0, "", 100, Some(3)));
    db.insert(song("4.mp3", "S4", "Y", "S", 0, "", 100, Some(4)));
    db.insert(song("5.mp3", "S5", "Z", "T", 0, "", 100, Some(5)));
    let mut t = terms();
    t.album = Some("q".to_string());
    let r = db.query(t);
    let facet = r.other_albums.expect("album facet expected");
    assert_eq!(facet.len(), 2);
    assert!(facet.contains(&"R".to_string()));
    assert!(facet.contains(&"S".to_string()));
    // no filter at all: no facet
    let r2 = db.query(terms());
    assert!(r2.other_albums.is_none());
}

#[test]
fn empty_title_falls_back_to_stem() {
    let s = song("dir/My Track.mp3", "", "A", "B", 0, "", 61, None);
    let r = SongResult::from_song(&s);
    assert_eq!(r.title, "My Track");
    assert_eq!(r.duration, "01:01");
    assert_eq!(r.id, s.id.to_string());
    let s2 = song("", "", "A", "B", 0, "", 0, None);
    let r2 = SongResult::from_song(&s2);
    assert_eq!(r2.title, "(unknown)");
}
