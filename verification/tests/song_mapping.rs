use psysonic_library::json::JsonValue;
use psysonic_library::mapping::{
    album_track_rows, merge_album_open_subsonic_track_raw, navidrome_song_to_track_row,
    normalize_navidrome_participants, sparse_song_raw_fallback, subsonic_song_to_track_row, Album, Song,
};
use psysonic_library::repos::RawJson;

fn s(text: &str) -> JsonValue {
    JsonValue::String(text.to_string())
}

fn n(text: &str) -> JsonValue {
    JsonValue::Number(text.to_string())
}

fn arr(items: Vec<JsonValue>) -> JsonValue {
    JsonValue::Array(items)
}

fn obj(entries: Vec<(&str, JsonValue)>) -> JsonValue {
    JsonValue::Object(entries.into_iter().map(|(k, v)| (k.to_string(), v)).collect())
}

fn member<'a>(v: &'a JsonValue, key: &str) -> Option<&'a JsonValue> {
    match v {
        JsonValue::Object(es) => es.iter().find(|(k, _)| k == key).map(|(_, v)| v),
        _ => None,
    }
}

fn song(id: &str, title: &str) -> Song {
    Song {
        id: id.to_string(),
        title: title.to_string(),
        artist: None,
        artist_id: None,
        album: None,
        album_id: None,
        album_artist: None,
        duration: None,
        track_number: None,
        disc_number: None,
        year: None,
        genre: None,
        suffix: None,
        bit_rate: None,
        size: None,
        cover_art: None,
        starred: None,
        user_rating: None,
        play_count: None,
        played: None,
        path: None,
        library_id: None,
        isrc: None,
        mbid_recording: None,
        bpm: None,
    }
}

#[test]
fn album_fields_fill_only_unusable_track_fields() {
    let album = obj(vec![
        ("isCompilation", JsonValue::Bool(true)),
        ("artists", arr(vec![s("canonical")])),
        ("albumArtists", arr(vec![s("alias")])),
        ("displayArtist", s("  ")),
        ("displayAlbumArtist", s("Various")),
        ("releaseTypes", JsonValue::Null),
    ]);
    let mut track = obj(vec![
        ("isCompilation", JsonValue::Bool(false)),
        ("albumArtists", arr(vec![])),
        ("title", s("t")),
    ]);
    merge_album_open_subsonic_track_raw(&album, &mut track);
    assert_eq!(
        track,
        obj(vec![
            ("isCompilation", JsonValue::Bool(false)),
            ("albumArtists", arr(vec![s("canonical")])),
            ("title", s("t")),
            ("displayAlbumArtist", s("Various")),
        ])
    );
    // A track payload that is not an object stays as it is.
    let mut other = s("x");
    merge_album_open_subsonic_track_raw(&album, &mut other);
    assert_eq!(other, s("x"));
}

#[test]
fn navidrome_participants_are_authoritative_once_present() {
    let raw = obj(vec![
        ("artist", s("A, B")),
        ("albumArtist", s("A")),
        ("participants", obj(vec![("artist", arr(vec![s("a"), s("b")]))])),
        ("artists", arr(vec![s("stale")])),
    ]);
    let out = normalize_navidrome_participants(&raw);
    assert_eq!(member(&out, "displayArtist"), Some(&s("A, B")));
    assert_eq!(member(&out, "displayAlbumArtist"), Some(&s("A")));
    assert_eq!(member(&out, "artists"), Some(&arr(vec![s("a"), s("b")])));
    assert_eq!(member(&out, "albumArtists"), Some(&arr(vec![])));

    let malformed = obj(vec![("participants", s("oops")), ("artists", arr(vec![s("stale")]))]);
    let out = normalize_navidrome_participants(&malformed);
    assert_eq!(member(&out, "artists"), Some(&arr(vec![])));
    assert_eq!(member(&out, "albumArtists"), Some(&arr(vec![])));

    let absent = obj(vec![("participants", JsonValue::Null), ("artists", arr(vec![s("kept")]))]);
    let out = normalize_navidrome_participants(&absent);
    assert_eq!(member(&out, "artists"), Some(&arr(vec![s("kept")])));
    assert_eq!(member(&out, "albumArtists"), None);
}

#[test]
fn navidrome_row_reads_native_fields() {
    let raw = obj(vec![
        ("id", s("tr_1")),
        ("title", s("Song")),
        ("artist", s("Art")),
        ("albumId", s("al")),
        ("trackNumber", n("3")),
        ("year", n("1.5")),
        ("libraryId", n("7")),
        ("mbzTrackId", s("mbz")),
        ("rgTrackGain", n("-6.5")),
        ("updatedAt", s("2024-06-01T00:00:00Z")),
        ("starredAt", s("garbage")),
    ]);
    let row = navidrome_song_to_track_row("s1", &raw, 99, Some("fallback"), 215).unwrap();
    assert_eq!(row.server_id, "s1");
    assert_eq!(row.id, "tr_1");
    assert_eq!(row.title, "Song");
    assert_eq!(row.artist.as_deref(), Some("Art"));
    assert_eq!(row.album, "");
    assert_eq!(row.album_id.as_deref(), Some("al"));
    assert_eq!(row.track_number, Some(3));
    assert_eq!(row.year, None);
    assert_eq!(row.library_id.as_deref(), Some("7"));
    assert_eq!(row.mbid_recording.as_deref(), Some("mbz"));
    assert_eq!(row.replay_gain_track_db.as_deref(), Some("-6.5"));
    assert_eq!(row.server_updated_at, Some(1_717_200_000_000));
    assert_eq!(row.starred_at, None);
    assert_eq!(row.duration_sec, 215);
    assert_eq!(row.synced_at, 99);
    assert!(!row.deleted);
    match &row.raw_json {
        RawJson::Json(v) => assert_eq!(member(v, "displayArtist"), Some(&s("Art"))),
        RawJson::Text(_) => panic!("expected JSON"),
    }

    let no_lib = obj(vec![("id", s("x"))]);
    let row = navidrome_song_to_track_row("s1", &no_lib, 1, Some("fallback"), 0).unwrap();
    assert_eq!(row.library_id.as_deref(), Some("fallback"));
    assert_eq!(row.title, "");

    assert!(navidrome_song_to_track_row("s1", &obj(vec![("id", n("5"))]), 1, None, 0).is_none());
    assert!(navidrome_song_to_track_row("s1", &obj(vec![]), 1, None, 0).is_none());
}

#[test]
fn subsonic_row_takes_typed_fields_and_raw_extras() {
    let mut sg = song("tr_9", "Nine");
    sg.duration = Some(120);
    sg.starred = Some("2024-06-01T12:00:00Z".to_string());
    let raw = obj(vec![
        ("sortName", s("nine")),
        ("displayAlbumArtist", s("DA")),
        ("replayGain", obj(vec![("trackGain", n("-3.2")), ("albumGain", s("x"))])),
        ("created", n("1")),
        ("createdAt", s("2024-06-01T00:00:00Z")),
    ]);
    let row = subsonic_song_to_track_row("s1", &sg, &raw, 5, Some("lib"));
    assert_eq!(row.id, "tr_9");
    assert_eq!(row.title_sort.as_deref(), Some("nine"));
    assert_eq!(row.album_artist.as_deref(), Some("DA"));
    assert_eq!(row.duration_sec, 120);
    assert_eq!(row.starred_at, Some(1_717_243_200_000));
    assert_eq!(row.library_id.as_deref(), Some("lib"));
    assert_eq!(row.replay_gain_track_db.as_deref(), Some("-3.2"));
    assert_eq!(row.replay_gain_album_db, None);
    // `created` is present but not a string: `createdAt` is not consulted.
    assert_eq!(row.server_created_at, None);
    assert_eq!(row.content_hash, None);
    assert_eq!(row.raw_json, RawJson::Json(raw));
}

#[test]
fn album_rows_merge_album_fields_and_fall_back_to_serialized_songs() {
    let album = Album { id: "al".to_string(), song: vec![song("a", "A"), song("b", "B")] };
    let raw_album = obj(vec![
        ("isCompilation", JsonValue::Bool(true)),
        ("song", arr(vec![obj(vec![("id", s("a"))])])),
    ]);
    let serialized = vec![obj(vec![("id", s("a-ser"))]), obj(vec![("id", s("b-ser"))])];
    let rows = album_track_rows("s1", &album, &raw_album, 3, Some("scope"), &serialized);
    assert_eq!(rows.len(), 2);
    assert_eq!(rows[0].id, "a");
    assert_eq!(rows[1].id, "b");
    assert_eq!(rows[0].library_id.as_deref(), Some("scope"));
    assert_eq!(
        rows[0].raw_json,
        RawJson::Json(obj(vec![("id", s("a")), ("isCompilation", JsonValue::Bool(true))]))
    );
    assert_eq!(
        rows[1].raw_json,
        RawJson::Json(obj(vec![("id", s("b-ser")), ("isCompilation", JsonValue::Bool(true))]))
    );
}

#[test]
fn sparse_fallback_drops_nulls() {
    let ser = obj(vec![("id", s("a")), ("genre", JsonValue::Null)]);
    assert_eq!(sparse_song_raw_fallback(&ser), obj(vec![("id", s("a"))]));
}
