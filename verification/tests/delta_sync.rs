use psysonic_library::delta::{N1Delta, S2Delta};
use psysonic_library::json::JsonValue;
use psysonic_library::mapping::{Album, Song};
use psysonic_library::repos::{LibraryStore, RawJson, TrackRepository};

fn s(text: &str) -> JsonValue {
    JsonValue::String(text.to_string())
}

fn obj(entries: Vec<(&str, JsonValue)>) -> JsonValue {
    JsonValue::Object(entries.into_iter().map(|(k, v)| (k.to_string(), v)).collect())
}

fn member<'a>(v: &'a JsonValue, key: &str) -> Option<&'a JsonValue> {
    match v {
        JsonValue::Object(es) => es.iter().find(|(k, _)| k == key).map(|(_, v)| v),
        _ => None,
    }
}

fn credit(id: &str, name: &str) -> JsonValue {
    obj(vec![("id", s(id)), ("name", s(name))])
}

#[test]
fn n1_delta_preserves_structured_artist_refs_when_native_row_omits_them() {
    let mut repo = TrackRepository::new(LibraryStore::open_in_memory());
    let rich_raw = obj(vec![
        ("id", s("tr_existing")),
        ("title", s("Adore You (Extended Mix)")),
        ("artist", s("FOVOS, Max Cardona")),
        ("artistId", s("fovos")),
        ("displayArtist", s("FOVOS, Max Cardona")),
        ("artists", JsonValue::Array(vec![credit("fovos", "FOVOS"), credit("max-cardona", "Max Cardona")])),
        ("albumArtists", JsonValue::Array(vec![credit("fovos", "FOVOS"), credit("max-cardona", "Max Cardona")])),
    ]);
    let mut seed = psysonic_library::mapping::navidrome_song_to_track_row("s1", &rich_raw, 1, None, 0).unwrap();
    seed.raw_json = RawJson::Json(rich_raw);
    seed.server_updated_at = Some(1_714_521_600_000);
    repo.upsert_batch(&[seed]).unwrap();

    let page = vec![obj(vec![
        ("id", s("tr_existing")),
        ("title", s("Adore You (Extended Mix)")),
        ("artist", s("FOVOS, Max Cardona")),
        ("artistId", s("fovos")),
        ("updatedAt", s("2024-06-01T00:00:00Z")),
    ])];
    let mut delta = N1Delta::new(10);
    assert_eq!(delta.window_end(), 10);
    delta.ingest_page(&mut repo, &page, &vec![0], "s1", 2, None, Some(1_714_521_600_000), true);
    assert_eq!(delta.changed_count, 1);
    assert!(delta.finished, "a short page ends the delta");

    let row = repo.store().get_track("s1", "tr_existing").unwrap();
    assert_eq!(row.title, "Adore You (Extended Mix)");
    let raw = match &row.raw_json {
        RawJson::Json(v) => v,
        RawJson::Text(_) => panic!("expected JSON"),
    };
    match member(raw, "artists") {
        Some(JsonValue::Array(items)) => {
            assert_eq!(items.len(), 2);
            assert_eq!(member(&items[0], "name"), Some(&s("FOVOS")));
            assert_eq!(member(&items[1], "name"), Some(&s("Max Cardona")));
        },
        _ => panic!("structured artists[] must survive sparse N1 delta"),
    }
    match member(raw, "albumArtists") {
        Some(JsonValue::Array(items)) => assert_eq!(items.len(), 2),
        _ => panic!("albumArtists[] must survive sparse N1 delta"),
    }
}

#[test]
fn n1_delta_stops_at_watermark_and_on_empty_page() {
    let mut repo = TrackRepository::new(LibraryStore::open_in_memory());
    let page = vec![
        obj(vec![("id", s("new")), ("updatedAt", s("2024-06-02T00:00:00Z"))]),
        obj(vec![("id", s("old")), ("updatedAt", s("2024-05-01T00:00:00Z"))]),
        obj(vec![("title", s("no id"))]),
    ];
    let mut delta = N1Delta::new(3);
    delta.ingest_page(&mut repo, &page, &vec![0, 0, 0], "s1", 1, None, Some(1_717_200_000_000), false);
    assert!(delta.finished);
    assert_eq!(delta.changed_count, 1);
    assert_eq!(delta.offset, 3);
    assert_eq!(repo.store().track_ids("s1"), vec!["new"]);

    let mut delta = N1Delta::new(2);
    delta.ingest_page(&mut repo, &vec![obj(vec![("id", s("x"))]), obj(vec![("id", s("y"))])], &vec![0, 0], "s1", 1, None, None, false);
    assert!(!delta.finished, "a full page asks for the next window");
    assert_eq!(delta.offset, 2);
    delta.ingest_page(&mut repo, &vec![], &vec![], "s1", 1, None, None, false);
    assert!(delta.finished);
    assert_eq!(delta.changed_count, 2);
}

fn song(id: &str) -> Song {
    Song {
        id: id.to_string(),
        title: id.to_string(),
        artist: None,
        artist_id: None,
        album: None,
        album_id: Some("al".to_string()),
        album_artist: None,
        duration: None,
        track_number: None,
        disc_number: None,
        year: None,
        genre: None,
        suffix: None,
        bit_rate: None,
        size: None,
        cover_art: None,
        starred: None,
        user_rating: None,
        play_count: None,
        played: None,
        path: None,
        library_id: None,
        isrc: None,
        mbid_recording: None,
        bpm: None,
    }
}

#[test]
fn s2_delta_dedupes_albums_and_walks_both_lists() {
    let mut delta = S2Delta::new(2, 2);
    assert_eq!(delta.next_list_type(), Some("newest"));
    let ids = vec!["a".to_string(), "b".to_string(), "a".to_string()];
    assert_eq!(delta.on_album_page(&ids), vec!["a".to_string(), "b".to_string()]);
    assert_eq!(delta.offset, 3);
    assert_eq!(delta.on_album_page(&vec!["b".to_string(), "c".to_string()]), vec!["c".to_string()]);
    // Second page was the last allowed one: on to `recent`.
    assert_eq!(delta.next_list_type(), Some("recent"));
    assert_eq!(delta.offset, 0);
    assert!(delta.on_album_page(&vec![]).is_empty());
    assert_eq!(delta.next_list_type(), None);

    let mut repo = TrackRepository::new(LibraryStore::open_in_memory());
    let album = Album { id: "al".to_string(), song: vec![song("t1"), song("t2")] };
    let raw_album = obj(vec![("song", JsonValue::Array(vec![obj(vec![("id", s("t1"))]), obj(vec![("id", s("t2"))])]))]);
    let serialized = vec![JsonValue::Null, JsonValue::Null];
    delta.ingest_album(&mut repo, "s1", &album, &raw_album, &serialized, 5, None, false);
    assert_eq!(delta.changed_count, 2);
    assert_eq!(repo.store().track_ids("s1"), vec!["t1", "t2"]);
}
