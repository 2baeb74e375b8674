use psysonic_library::json::JsonValue;
use psysonic_library::repos::{
    ChildTable, LibraryStore, RawJson, TrackIdHistoryRepository, TrackRepository, TrackRow,
};

fn row(server: &str, id: &str, title: &str) -> TrackRow {
    TrackRow {
        server_id: server.to_string(),
        id: id.to_string(),
        title: title.to_string(),
        title_sort: None,
        artist: Some("Artist".to_string()),
        artist_id: None,
        album: "Album".to_string(),
        album_id: Some("al_1".to_string()),
        album_artist: None,
        duration_sec: 180,
        track_number: Some(1),
        disc_number: None,
        year: None,
        genre: None,
        suffix: None,
        bit_rate: None,
        size_bytes: None,
        cover_art_id: None,
        starred_at: None,
        user_rating: None,
        play_count: None,
        played_at: None,
        server_path: None,
        library_id: None,
        isrc: None,
        mbid_recording: None,
        bpm: None,
        replay_gain_track_db: None,
        replay_gain_album_db: None,
        replay_gain_peak: None,
        content_hash: None,
        server_updated_at: None,
        server_created_at: None,
        deleted: false,
        synced_at: 1,
        raw_json: RawJson::Json(JsonValue::Object(vec![])),
    }
}

fn row_with_id_hash(server: &str, id: &str, hash: &str, path: &str) -> TrackRow {
    let mut r = row(server, id, "Title");
    r.content_hash = if hash.is_empty() { None } else { Some(hash.into()) };
    r.server_path = if path.is_empty() { None } else { Some(path.into()) };
    r
}

fn s(text: &str) -> JsonValue {
    JsonValue::String(text.to_string())
}

fn obj(entries: Vec<(&str, JsonValue)>) -> JsonValue {
    JsonValue::Object(entries.into_iter().map(|(k, v)| (k.to_string(), v)).collect())
}

fn credit(id: &str, name: &str) -> JsonValue {
    obj(vec![("id", s(id)), ("name", s(name))])
}

fn member<'a>(v: &'a JsonValue, key: &str) -> Option<&'a JsonValue> {
    match v {
        JsonValue::Object(es) => es.iter().find(|(k, _)| k == key).map(|(_, v)| v),
        _ => None,
    }
}

#[test]
fn remap_disabled_never_records_history_even_on_hash_collision() {
    let mut repo = TrackRepository::new(LibraryStore::open_in_memory());
    repo.upsert_batch(&[row_with_id_hash("s1", "tr_old", "deadbeef", "")]).unwrap();

    // Generic Subsonic path: caller passes `unstable_track_ids = false`.
    let stats = repo
        .upsert_batch_with_remap(&[row_with_id_hash("s1", "tr_new", "deadbeef", "")], false)
        .unwrap();
    assert!(stats.remapped.is_empty());

    let track_count = repo.store().track_count();
    let hist_count = repo.store().history_count();
    assert_eq!(track_count, 2, "both ids coexist when remap is off");
    assert_eq!(hist_count, 0);
}

#[test]
fn remap_via_content_hash_replaces_old_row_and_records_history() {
    let mut store = LibraryStore::open_in_memory();
    let mut repo = TrackRepository::new(store);
    repo.upsert_batch(&[row_with_id_hash("s1", "tr_old", "deadbeef", "/path/x.flac")]).unwrap();
    store = repo.into_store();
    store.insert_child(ChildTable::TrackOffline, "s1", "tr_old");
    store.insert_child(ChildTable::TrackExtension, "s1", "tr_old");
    let mut repo = TrackRepository::new(store);

    let stats = repo
        .upsert_batch_with_remap(&[row_with_id_hash("s1", "tr_new", "deadbeef", "/path/x.flac")], true)
        .unwrap();
    assert_eq!(stats.remapped.len(), 1);
    assert_eq!(stats.remapped[0].old_id, "tr_old");
    assert_eq!(stats.remapped[0].new_id, "tr_new");

    // Old track row gone, new one in place.
    let store = repo.into_store();
    assert_eq!(store.track_ids("s1"), vec!["tr_new"]);

    // Child tables follow the new id.
    assert_eq!(store.child_track_ids(ChildTable::TrackOffline, "s1"), vec!["tr_new"]);
    assert_eq!(store.child_track_ids(ChildTable::TrackExtension, "s1"), vec!["tr_new"]);

    // History row recorded.
    let hist = TrackIdHistoryRepository::new(&store);
    assert_eq!(hist.lookup_new_id("s1", "tr_old").unwrap().as_deref(), Some("tr_new"));
}

#[test]
fn sparse_remap_merges_from_resolved_old_row_before_deleting_it() {
    let mut repo = TrackRepository::new(LibraryStore::open_in_memory());

    let mut old = row_with_id_hash("s1", "tr_old", "deadbeef", "/path/x.flac");
    old.raw_json = RawJson::Json(obj(vec![
        ("id", s("tr_old")),
        ("artist", s("FOVOS, Max Cardona")),
        ("artists", JsonValue::Array(vec![credit("fovos", "FOVOS"), credit("max-cardona", "Max Cardona")])),
        ("albumArtists", JsonValue::Array(vec![credit("fovos", "FOVOS"), credit("max-cardona", "Max Cardona")])),
        ("displayArtist", s("FOVOS, Max Cardona")),
    ]));
    repo.upsert_batch(&[old]).unwrap();

    let mut incoming = row_with_id_hash("s1", "tr_new", "deadbeef", "/path/x.flac");
    incoming.raw_json = RawJson::Json(obj(vec![
        ("id", s("tr_new")),
        ("artist", s("FOVOS, Someone Else")),
        ("artists", JsonValue::Array(vec![credit("fovos", "FOVOS"), credit("someone-else", "Someone Else")])),
        ("displayArtist", s("FOVOS, Someone Else")),
    ]));

    let stats = repo.upsert_sparse_batch_with_remap(&[incoming], true).unwrap();
    assert_eq!(stats.remapped.len(), 1);

    let raw = match &repo.store().get_track("s1", "tr_new").unwrap().raw_json {
        RawJson::Json(v) => v,
        RawJson::Text(_) => panic!("raw_json must stay JSON"),
    };

    // Present current credits replace the old array and display value.
    assert_eq!(
        member(raw, "artists"),
        Some(&JsonValue::Array(vec![credit("fovos", "FOVOS"), credit("someone-else", "Someone Else")]))
    );
    assert_eq!(member(raw, "displayArtist"), Some(&s("FOVOS, Someone Else")));
    // Truly absent rich fields survive from the old id across the remap.
    assert_eq!(
        member(raw, "albumArtists"),
        Some(&JsonValue::Array(vec![credit("fovos", "FOVOS"), credit("max-cardona", "Max Cardona")]))
    );
}

#[test]
fn remap_via_server_path_only_works_when_hash_missing() {
    let mut repo = TrackRepository::new(LibraryStore::open_in_memory());
    repo.upsert_batch(&[row_with_id_hash("s1", "tr_old", "", "/path/y.mp3")]).unwrap();
    // Server only ships server_path on the new row — no hash yet.
    let stats = repo
        .upsert_batch_with_remap(&[row_with_id_hash("s1", "tr_new", "", "/path/y.mp3")], true)
        .unwrap();
    assert_eq!(stats.remapped.len(), 1, "path-based remap must trigger");
}

#[test]
fn remap_skips_when_neither_hash_nor_path_present() {
    // Defensive: empty-string sentinels must not cause spurious
    // remaps across unrelated rows that happen to lack hash + path.
    let mut repo = TrackRepository::new(LibraryStore::open_in_memory());
    repo.upsert_batch(&[row_with_id_hash("s1", "tr_old", "", "")]).unwrap();
    let stats = repo
        .upsert_batch_with_remap(&[row_with_id_hash("s1", "tr_new", "", "")], true)
        .unwrap();
    assert!(stats.remapped.is_empty());
    let count = repo.store().track_count();
    assert_eq!(count, 2, "both rows kept; identity-less rows can't shadow");
}

#[test]
fn remap_is_noop_when_new_id_matches_existing_id() {
    // Standard delta-sync: same id, same hash. Must not trigger
    // remap (SELECT excludes id = T.id).
    let mut repo = TrackRepository::new(LibraryStore::open_in_memory());
    repo.upsert_batch(&[row_with_id_hash("s1", "tr_1", "h", "/p")]).unwrap();
    let stats = repo
        .upsert_batch_with_remap(&[row_with_id_hash("s1", "tr_1", "h", "/p")], true)
        .unwrap();
    assert!(stats.remapped.is_empty());
}

// ---- further cases ----

#[test]
fn empty_batch_is_ok_and_changes_nothing() {
    let mut repo = TrackRepository::new(LibraryStore::open_in_memory());
    repo.upsert_batch(&[row("s1", "a", "A")]).unwrap();
    let stats = repo.upsert_batch_with_remap(&[], true).unwrap();
    assert!(stats.remapped.is_empty());
    assert_eq!(repo.store().track_count(), 1);
}

#[test]
fn empty_string_hash_never_remaps_even_when_paths_differ() {
    let mut repo = TrackRepository::new(LibraryStore::open_in_memory());
    let mut old = row("s1", "tr_old", "T");
    old.content_hash = Some(String::new());
    old.server_path = Some(String::new());
    repo.upsert_batch(&[old]).unwrap();
    let mut new = row("s1", "tr_new", "T");
    new.content_hash = Some(String::new());
    new.server_path = Some(String::new());
    let stats = repo.upsert_batch_with_remap(&[new], true).unwrap();
    assert!(stats.remapped.is_empty());
    assert_eq!(repo.store().track_count(), 2);
}

#[test]
fn deleted_rows_and_other_servers_are_never_remap_sources() {
    let mut repo = TrackRepository::new(LibraryStore::open_in_memory());
    let mut gone = row_with_id_hash("s1", "tr_gone", "h1", "");
    gone.deleted = true;
    repo.upsert_batch(&[gone, row_with_id_hash("s2", "tr_other", "h1", "")]).unwrap();
    let stats = repo.upsert_batch_with_remap(&[row_with_id_hash("s1", "tr_new", "h1", "")], true).unwrap();
    assert!(stats.remapped.is_empty());
    assert_eq!(repo.store().track_count(), 3);
}

#[test]
fn hash_match_wins_over_path_match() {
    let mut repo = TrackRepository::new(LibraryStore::open_in_memory());
    repo.upsert_batch(&[
        row_with_id_hash("s1", "by_path", "", "/p"),
        row_with_id_hash("s1", "by_hash", "h", ""),
    ])
    .unwrap();
    let stats = repo.upsert_batch_with_remap(&[row_with_id_hash("s1", "new", "h", "/p")], true).unwrap();
    assert_eq!(stats.remapped.len(), 1);
    assert_eq!(stats.remapped[0].old_id, "by_hash");
    assert_eq!(repo.store().track_ids("s1"), vec!["by_path", "new"]);
}

#[test]
fn remap_retargets_every_child_table_and_history_updates_in_place() {
    let mut store = LibraryStore::open_in_memory();
    let mut repo = TrackRepository::new(store);
    repo.upsert_batch(&[row_with_id_hash("s1", "a", "h", "")]).unwrap();
    store = repo.into_store();
    for table in [
        ChildTable::TrackOffline,
        ChildTable::TrackExtension,
        ChildTable::TrackFact,
        ChildTable::TrackArtifact,
        ChildTable::TrackCanonicalLink,
        ChildTable::PlaySession,
    ] {
        store.insert_child(table, "s1", "a");
        store.insert_child(table, "s2", "a");
    }
    let mut repo = TrackRepository::new(store);
    repo.upsert_batch_with_remap(&[row_with_id_hash("s1", "b", "h", "")], true).unwrap();
    // `a` comes back and is remapped again, onto `c`: the history row for `b` is new,
    // the one for `a` keeps pointing at `b`.
    repo.upsert_batch(&[row_with_id_hash("s1", "a", "", "")]).unwrap();
    repo.upsert_batch_with_remap(&[row_with_id_hash("s1", "c", "h", "")], true).unwrap();
    let store = repo.into_store();
    for table in [ChildTable::TrackOffline, ChildTable::PlaySession, ChildTable::TrackFact] {
        assert_eq!(store.child_track_ids(table, "s1"), vec!["c"]);
        assert_eq!(store.child_track_ids(table, "s2"), vec!["a"]);
    }
    assert_eq!(store.lookup_new_id("s1", "a").as_deref(), Some("b"));
    assert_eq!(store.lookup_new_id("s1", "b").as_deref(), Some("c"));
    assert_eq!(store.history_count(), 2);
    assert_eq!(store.track_ids("s1"), vec!["a", "c"]);
}

#[test]
fn plain_upsert_replaces_row_under_same_key() {
    let mut repo = TrackRepository::new(LibraryStore::open_in_memory());
    repo.upsert_batch(&[row("s1", "a", "Old")]).unwrap();
    repo.upsert_batch(&[row("s1", "a", "New"), row("s1", "b", "B")]).unwrap();
    let store = repo.into_store();
    assert_eq!(store.track_count(), 2);
    assert_eq!(store.get_track("s1", "a").unwrap().title, "New");
}

#[test]
fn sparse_upsert_keeps_absent_members_and_takes_present_ones() {
    let mut repo = TrackRepository::new(LibraryStore::open_in_memory());
    let mut stored = row("s1", "a", "T");
    stored.raw_json = RawJson::Json(obj(vec![("artists", JsonValue::Array(vec![s("x")])), ("title", s("Old"))]));
    repo.upsert_batch(&[stored]).unwrap();
    let mut incoming = row("s1", "a", "T");
    incoming.raw_json = RawJson::Json(obj(vec![("title", s("New")), ("genre", JsonValue::Null)]));
    repo.upsert_sparse_batch_with_remap(&[incoming], false).unwrap();
    assert_eq!(
        repo.store().get_track("s1", "a").unwrap().raw_json,
        RawJson::Json(obj(vec![("artists", JsonValue::Array(vec![s("x")])), ("title", s("New"))]))
    );

    // A payload that is not valid JSON replaces the stored one wholesale.
    let mut broken = row("s1", "a", "T");
    broken.raw_json = RawJson::Text("{not json".to_string());
    repo.upsert_sparse_batch_with_remap(&[broken], false).unwrap();
    assert_eq!(repo.store().get_track("s1", "a").unwrap().raw_json, RawJson::Text("{not json".to_string()));
}
