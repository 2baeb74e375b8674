//! Subsonic / Navidrome song JSON to track rows.
use vstd::prelude::*;
use crate::json::{
    JsonValue, Json, clone_value, entries_get, entries_insert, entries_insert_exec, find_key, get,
    is_usable_participant_value, json_get, lemma_view_entries, usable, view_entries, view_items,
    string_field, string_field_of, str_field, str_field_of, i64_field, i64_field_of, number_field,
    number_field_of, opt_string_view, stripped, strip_nulls, json_string_field,
};
use crate::repos::{RawJson, RawView, TrackRow, TrackRowView, clone_opt};
use crate::text::string_from;
use crate::time::{parse_iso_ms, parse_iso_ms_spec, parse_opt_spec};

verus! {

// ---------------------------------------------------------------------------
// Album-level fields copied onto each track

/// Album-level OpenSubsonic fields copied onto each track's raw JSON, as
/// `(album key, track key)`, in the order they are applied. The artist
/// participants of an album land on the track's album-artist fields.
pub open spec fn album_to_track_raw_keys() -> Seq<(Seq<char>, Seq<char>)> {
    seq![
        ("compilation"@, "compilation"@),
        ("isCompilation"@, "isCompilation"@),
        ("releaseTypes"@, "releaseTypes"@),
        ("artists"@, "albumArtists"@),
        ("albumArtists"@, "albumArtists"@),
        ("displayArtist"@, "displayAlbumArtist"@),
        ("displayAlbumArtist"@, "displayAlbumArtist"@),
    ]
}

fn album_to_track_raw_keys_exec() -> (r: Vec<(&'static str, &'static str)>)
    ensures
        r@.len() == album_to_track_raw_keys().len(),
        forall|i: int| 0 <= i < r@.len() ==> (#[trigger] r@[i]).0@ == album_to_track_raw_keys()[i].0
            && r@[i].1@ == album_to_track_raw_keys()[i].1,
{
    vec![
        ("compilation", "compilation"),
        ("isCompilation", "isCompilation"),
        ("releaseTypes", "releaseTypes"),
        ("artists", "albumArtists"),
        ("albumArtists", "albumArtists"),
        ("displayArtist", "displayAlbumArtist"),
        ("displayAlbumArtist", "displayAlbumArtist"),
    ]
}

/// One key pair: the track keeps a usable value it already carries; otherwise
/// a usable album value is copied in; nothing else changes.
pub open spec fn album_merge_step(es: Seq<(Seq<char>, Json)>, album: Json, keys: (Seq<char>, Seq<char>)) -> Seq<(Seq<char>, Json)> {
    let carried = match entries_get(es, keys.1) {
        Some(x) => usable(x),
        None => false,
    };
    if carried {
        es
    } else {
        match json_get(album, keys.0) {
            Some(v) => if usable(v) {
                entries_insert(es, keys.1, v)
            } else {
                es
            },
            None => es,
        }
    }
}

pub open spec fn album_merge_entries(es: Seq<(Seq<char>, Json)>, album: Json, keys: Seq<(Seq<char>, Seq<char>)>) -> Seq<(Seq<char>, Json)>
    decreases keys.len(),
{
    if keys.len() == 0 {
        es
    } else {
        album_merge_step(album_merge_entries(es, album, keys.drop_last()), album, keys.last())
    }
}

/// A track's raw JSON with the album-level fields merged in; a track payload
/// that is not an object is left as it is.
pub open spec fn merge_album_spec(album: Json, song: Json) -> Json {
    match song {
        Json::Object(es) => Json::Object(album_merge_entries(es, album, album_to_track_raw_keys())),
        _ => song,
    }
}

/// Copies album-level OpenSubsonic fields onto a track's raw JSON: never
/// overwrites a usable value the track carries, never writes an unusable one,
/// and applies the key pairs in order so the canonical spellings win.
pub fn merge_album_open_subsonic_track_raw(raw_album: &JsonValue, raw_song: &mut JsonValue)
    ensures
        final(raw_song)@ == merge_album_spec(raw_album@, old(raw_song)@),
{
    let merged = match raw_song {
        JsonValue::Object(es) => {
            let keys = album_to_track_raw_keys_exec();
            let mut out: Vec<(String, JsonValue)> = match clone_value(raw_song) {
                JsonValue::Object(c) => c,
                _ => Vec::new(),
            };
            let ghost es0 = view_entries(es@);
            let n = keys.len();
            let mut i: usize = 0;
            proof {
                assert(album_to_track_raw_keys().take(0) =~= Seq::<(Seq<char>, Seq<char>)>::empty());
            }
            while i < n
                invariant
                    n == keys@.len(),
                    n == album_to_track_raw_keys().len(),
                    forall|j: int| 0 <= j < keys@.len() ==> (#[trigger] keys@[j]).0@ == album_to_track_raw_keys()[j].0
                        && keys@[j].1@ == album_to_track_raw_keys()[j].1,
                    i <= n,
                    view_entries(out@) == album_merge_entries(es0, raw_album@, album_to_track_raw_keys().take(i as int)),
                decreases n - i,
            {
                let (album_key, track_key) = keys[i];
                proof {
                    let ks = album_to_track_raw_keys().take(i + 1);
                    assert(ks.drop_last() =~= album_to_track_raw_keys().take(i as int));
                    assert(ks.last() == (album_key@, track_key@));
                    lemma_view_entries(out@);
                }
                let carried = match find_key(&out, track_key) {
                    Some(j) => is_usable_participant_value(&out[j].1),
                    None => false,
                };
                if !carried {
                    match get(raw_album, album_key) {
                        Some(v) => {
                            if is_usable_participant_value(v) {
                                let c = clone_value(v);
                                entries_insert_exec(&mut out, track_key, c);
                            }
                        },
                        None => {},
                    }
                }
                i = i + 1;
            }
            proof {
                assert(album_to_track_raw_keys().take(n as int) =~= album_to_track_raw_keys());
            }
            JsonValue::Object(out)
        },
        _ => clone_value(raw_song),
    };
    *raw_song = merged;
}


// ---------------------------------------------------------------------------
// Navidrome native participants

/// Navidrome native artist data on the OpenSubsonic keys: the flat `artist` /
/// `albumArtist` strings become `displayArtist` / `displayAlbumArtist`; a
/// present, non-null `participants` is authoritative as a whole, its `artist`
/// and `albumartist` (or `albumArtist`) roles becoming `artists` and
/// `albumArtists`, a missing role or a malformed `participants` giving empty
/// arrays. A value that is not an object is left as it is.
pub open spec fn normalize_spec(raw: Json) -> Json {
    match raw {
        Json::Object(es) => {
            let es1 = match json_get(raw, "artist"@) {
                Some(a) => entries_insert(es, "displayArtist"@, a),
                None => es,
            };
            let es2 = match json_get(raw, "albumArtist"@) {
                Some(a) => entries_insert(es1, "displayAlbumArtist"@, a),
                None => es1,
            };
            let empty = Json::Array(Seq::empty());
            match json_get(raw, "participants"@) {
                None => Json::Object(es2),
                Some(Json::Null) => Json::Object(es2),
                Some(Json::Object(ps)) => {
                    let artists = match entries_get(ps, "artist"@) {
                        Some(x) => x,
                        None => empty,
                    };
                    let album_artists = match entries_get(ps, "albumartist"@) {
                        Some(x) => x,
                        None => match entries_get(ps, "albumArtist"@) {
                            Some(x) => x,
                            None => empty,
                        },
                    };
                    Json::Object(entries_insert(entries_insert(es2, "artists"@, artists), "albumArtists"@, album_artists))
                },
                Some(_) => Json::Object(entries_insert(entries_insert(es2, "artists"@, empty), "albumArtists"@, empty)),
            }
        },
        _ => raw,
    }
}

fn empty_array() -> (r: JsonValue)
    ensures
        r@ == Json::Array(Seq::empty()),
{
    let v: Vec<JsonValue> = Vec::new();
    let r = JsonValue::Array(v);
    assert(view_items(v@) =~= Seq::<Json>::empty());
    r
}

/// Normalizes Navidrome native artist data onto the OpenSubsonic keys, per
/// `normalize_spec`.
pub fn normalize_navidrome_participants(raw: &JsonValue) -> (r: JsonValue)
    ensures
        r@ == normalize_spec(raw@),
{
    match raw {
        JsonValue::Object(_) => {},
        _ => return clone_value(raw),
    }
    let mut es: Vec<(String, JsonValue)> = match clone_value(raw) {
        JsonValue::Object(c) => c,
        _ => Vec::new(),
    };
    match get(raw, "artist") {
        Some(a) => {
            let c = clone_value(a);
            entries_insert_exec(&mut es, "displayArtist", c);
        },
        None => {},
    }
    match get(raw, "albumArtist") {
        Some(a) => {
            let c = clone_value(a);
            entries_insert_exec(&mut es, "displayAlbumArtist", c);
        },
        None => {},
    }
    match get(raw, "participants") {
        None => {},
        Some(JsonValue::Null) => {},
        Some(JsonValue::Object(ps)) => {
            let pv = get(raw, "participants").unwrap();
            let artists = match get(pv, "artist") {
                Some(x) => clone_value(x),
                None => empty_array(),
            };
            let album_artists = match get(pv, "albumartist") {
                Some(x) => clone_value(x),
                None => match get(pv, "albumArtist") {
                    Some(x) => clone_value(x),
                    None => empty_array(),
                },
            };
            entries_insert_exec(&mut es, "artists", artists);
            entries_insert_exec(&mut es, "albumArtists", album_artists);
        },
        Some(_) => {
            entries_insert_exec(&mut es, "artists", empty_array());
            entries_insert_exec(&mut es, "albumArtists", empty_array());
        },
    }
    JsonValue::Object(es)
}


// ---------------------------------------------------------------------------
// Subsonic songs

/// A Subsonic `Song` as the projection reads it.
#[derive(Debug, PartialEq)]
pub struct Song {
    pub id: String,
    pub title: String,
    pub artist: Option<String>,
    pub artist_id: Option<String>,
    pub album: Option<String>,
    pub album_id: Option<String>,
    pub album_artist: Option<String>,
    pub duration: Option<i64>,
    pub track_number: Option<i64>,
    pub disc_number: Option<i64>,
    pub year: Option<i64>,
    pub genre: Option<String>,
    pub suffix: Option<String>,
    pub bit_rate: Option<i64>,
    pub size: Option<i64>,
    pub cover_art: Option<String>,
    pub starred: Option<String>,
    pub user_rating: Option<i64>,
    pub play_count: Option<i64>,
    pub played: Option<String>,
    pub path: Option<String>,
    pub library_id: Option<String>,
    pub isrc: Option<String>,
    pub mbid_recording: Option<String>,
    pub bpm: Option<i64>,
}

/// A Subsonic `AlbumID3` with its songs.
#[derive(Debug, PartialEq)]
pub struct Album {
    pub id: String,
    pub song: Vec<Song>,
}

/// The first of two optional texts that is present.
pub open spec fn or_else(a: Option<Seq<char>>, b: Option<Seq<char>>) -> Option<Seq<char>> {
    match a {
        Some(x) => Some(x),
        None => b,
    }
}

/// `Value::as_str` of an optional value.
pub open spec fn as_str_of(j: Option<Json>) -> Option<Seq<char>> {
    match j {
        Some(Json::Str(s)) => Some(s),
        _ => None,
    }
}

/// The replay-gain member `key` of the `replayGain` object, as its number text.
pub open spec fn replay_gain_of(raw: Json, key: Seq<char>) -> Option<Seq<char>> {
    match json_get(raw, "replayGain"@) {
        Some(rg) => number_field_of(rg, key),
        None => None,
    }
}

/// The track row of a Subsonic song: typed fields from the song, sort title,
/// album-artist fallbacks, replay gain and server timestamps from its raw JSON,
/// which is stored as the row's payload.
pub open spec fn subsonic_row_spec(
    server_id: Seq<char>,
    song: Song,
    raw: Json,
    synced_at: i64,
    library_id_fallback: Option<Seq<char>>,
) -> TrackRowView {
    TrackRowView {
        server_id,
        id: song.id@,
        title: song.title@,
        title_sort: or_else(
            string_field_of(raw, "sortTitle"@),
            or_else(string_field_of(raw, "orderTitle"@), string_field_of(raw, "sortName"@)),
        ),
        artist: opt_string_view(song.artist),
        artist_id: opt_string_view(song.artist_id),
        album: match song.album {
            Some(a) => a@,
            None => Seq::empty(),
        },
        album_id: opt_string_view(song.album_id),
        album_artist: or_else(
            opt_string_view(song.album_artist),
            or_else(string_field_of(raw, "displayAlbumArtist"@), string_field_of(raw, "albumArtist"@)),
        ),
        duration_sec: match song.duration {
            Some(d) => d,
            None => 0,
        },
        track_number: song.track_number,
        disc_number: song.disc_number,
        year: song.year,
        genre: opt_string_view(song.genre),
        suffix: opt_string_view(song.suffix),
        bit_rate: song.bit_rate,
        size_bytes: song.size,
        cover_art_id: opt_string_view(song.cover_art),
        starred_at: parse_opt_spec(opt_string_view(song.starred)),
        user_rating: song.user_rating,
        play_count: song.play_count,
        played_at: parse_opt_spec(opt_string_view(song.played)),
        server_path: opt_string_view(song.path),
        library_id: or_else(opt_string_view(song.library_id), library_id_fallback),
        isrc: opt_string_view(song.isrc),
        mbid_recording: opt_string_view(song.mbid_recording),
        bpm: song.bpm,
        replay_gain_track_db: replay_gain_of(raw, "trackGain"@),
        replay_gain_album_db: replay_gain_of(raw, "albumGain"@),
        replay_gain_peak: replay_gain_of(raw, "trackPeak"@),
        content_hash: None,
        server_updated_at: parse_opt_spec(str_field_of(raw, "updatedAt"@)),
        server_created_at: parse_opt_spec(
            match json_get(raw, "created"@) {
                Some(x) => as_str_of(Some(x)),
                None => as_str_of(json_get(raw, "createdAt"@)),
            },
        ),
        deleted: false,
        synced_at,
        raw_json: RawView::Json(raw),
    }
}

fn first_present(a: Option<String>, b: Option<String>) -> (r: Option<String>)
    ensures
        opt_string_view(r) == or_else(opt_string_view(a), opt_string_view(b)),
{
    match a {
        Some(x) => Some(x),
        None => b,
    }
}

fn parse_opt_string(o: &Option<String>) -> (r: Option<i64>)
    ensures
        r == parse_opt_spec(opt_string_view(*o)),
{
    match o {
        Some(s) => parse_iso_ms(Some(s.as_str())),
        None => parse_iso_ms(None),
    }
}

fn replay_gain(raw: &JsonValue, key: &str) -> (r: Option<String>)
    ensures
        opt_string_view(r) == replay_gain_of(raw@, key@),
{
    match get(raw, "replayGain") {
        Some(rg) => number_field(rg, key),
        None => None,
    }
}

fn as_str_value(v: Option<&JsonValue>) -> (r: Option<String>)
    ensures
        opt_string_view(r) == as_str_of(match v { Some(x) => Some(x@), None => None }),
{
    match v {
        Some(JsonValue::String(s)) => Some(s.clone()),
        _ => None,
    }
}

fn opt_from_str(o: Option<&str>) -> (r: Option<String>)
    ensures
        opt_string_view(r) == match o { Some(t) => Some(t@), None => None },
{
    match o {
        Some(t) => Some(string_from(t)),
        None => None,
    }
}

/// Projects a Subsonic song plus its raw JSON into a track row, per
/// `subsonic_row_spec`.
pub fn subsonic_song_to_track_row(
    server_id: &str,
    song: &Song,
    raw_value: &JsonValue,
    synced_at: i64,
    library_id_fallback: Option<&str>,
) -> (r: TrackRow)
    ensures
        r@ == subsonic_row_spec(
            server_id@,
            *song,
            raw_value@,
            synced_at,
            match library_id_fallback { Some(t) => Some(t@), None => None },
        ),
{
    let title_sort = first_present(
        string_field(raw_value, "sortTitle"),
        first_present(string_field(raw_value, "orderTitle"), string_field(raw_value, "sortName")),
    );
    let album_artist = first_present(
        clone_opt(&song.album_artist),
        first_present(string_field(raw_value, "displayAlbumArtist"), string_field(raw_value, "albumArtist")),
    );
    let album = match &song.album {
        Some(a) => a.clone(),
        None => String::new(),
    };
    let library_id = first_present(clone_opt(&song.library_id), opt_from_str(library_id_fallback));
    let created = match get(raw_value, "created") {
        Some(x) => as_str_value(Some(x)),
        None => as_str_value(get(raw_value, "createdAt")),
    };
    let row = TrackRow {
        server_id: string_from(server_id),
        id: song.id.clone(),
        title: song.title.clone(),
        title_sort,
        artist: clone_opt(&song.artist),
        artist_id: clone_opt(&song.artist_id),
        album,
        album_id: clone_opt(&song.album_id),
        album_artist,
        duration_sec: match song.duration {
            Some(d) => d,
            None => 0,
        },
        track_number: song.track_number,
        disc_number: song.disc_number,
        year: song.year,
        genre: clone_opt(&song.genre),
        suffix: clone_opt(&song.suffix),
        bit_rate: song.bit_rate,
        size_bytes: song.size,
        cover_art_id: clone_opt(&song.cover_art),
        starred_at: parse_opt_string(&song.starred),
        user_rating: song.user_rating,
        play_count: song.play_count,
        played_at: parse_opt_string(&song.played),
        server_path: clone_opt(&song.path),
        library_id,
        isrc: clone_opt(&song.isrc),
        mbid_recording: clone_opt(&song.mbid_recording),
        bpm: song.bpm,
        replay_gain_track_db: replay_gain(raw_value, "trackGain"),
        replay_gain_album_db: replay_gain(raw_value, "albumGain"),
        replay_gain_peak: replay_gain(raw_value, "trackPeak"),
        content_hash: None,
        server_updated_at: parse_opt_string(&str_field(raw_value, "updatedAt")),
        server_created_at: parse_opt_string(&created),
        deleted: false,
        synced_at,
        raw_json: RawJson::Json(clone_value(raw_value)),
    };
    row
}


// ---------------------------------------------------------------------------
// Navidrome native songs

/// The track row of a Navidrome `/api/song` object, read member by member from
/// its normalized form (`normalize_spec`), which is stored as the row's payload;
/// nothing when it has no string `id`. `duration_sec` is the whole-second
/// duration already read from the payload.
pub open spec fn navidrome_row_spec(
    server_id: Seq<char>,
    raw: Json,
    synced_at: i64,
    library_id_fallback: Option<Seq<char>>,
    duration_sec: i64,
) -> Option<TrackRowView> {
    let n = normalize_spec(raw);
    match str_field_of(n, "id"@) {
        None => None,
        Some(id) => Some(
            TrackRowView {
                server_id,
                id,
                title: match str_field_of(n, "title"@) {
                    Some(t) => t,
                    None => Seq::empty(),
                },
                title_sort: or_else(
                    string_field_of(n, "sortTitle"@),
                    or_else(string_field_of(n, "orderTitle"@), string_field_of(n, "sortName"@)),
                ),
                artist: string_field_of(n, "artist"@),
                artist_id: string_field_of(n, "artistId"@),
                album: match string_field_of(n, "album"@) {
                    Some(a) => a,
                    None => Seq::empty(),
                },
                album_id: string_field_of(n, "albumId"@),
                album_artist: string_field_of(n, "albumArtist"@),
                duration_sec,
                track_number: i64_field_of(n, "trackNumber"@),
                disc_number: i64_field_of(n, "discNumber"@),
                year: i64_field_of(n, "year"@),
                genre: string_field_of(n, "genre"@),
                suffix: string_field_of(n, "suffix"@),
                bit_rate: i64_field_of(n, "bitRate"@),
                size_bytes: i64_field_of(n, "size"@),
                cover_art_id: or_else(string_field_of(n, "coverArtId"@), string_field_of(n, "coverArt"@)),
                starred_at: parse_opt_spec(str_field_of(n, "starredAt"@)),
                user_rating: i64_field_of(n, "rating"@),
                play_count: i64_field_of(n, "playCount"@),
                played_at: parse_opt_spec(str_field_of(n, "playedAt"@)),
                server_path: string_field_of(n, "path"@),
                library_id: or_else(
                    string_field_of(n, "libraryId"@),
                    or_else(
                        string_field_of(n, "library_id"@),
                        or_else(string_field_of(n, "musicFolderId"@), library_id_fallback),
                    ),
                ),
                isrc: string_field_of(n, "isrc"@),
                mbid_recording: or_else(string_field_of(n, "mbzTrackId"@), string_field_of(n, "musicBrainzId"@)),
                bpm: i64_field_of(n, "bpm"@),
                replay_gain_track_db: number_field_of(n, "rgTrackGain"@),
                replay_gain_album_db: number_field_of(n, "rgAlbumGain"@),
                replay_gain_peak: number_field_of(n, "rgTrackPeak"@),
                content_hash: None,
                server_updated_at: parse_opt_spec(str_field_of(n, "updatedAt"@)),
                server_created_at: parse_opt_spec(str_field_of(n, "createdAt"@)),
                deleted: false,
                synced_at,
                raw_json: RawView::Json(n),
            },
        ),
    }
}

/// Projects a Navidrome `/api/song` object into a track row, per
/// `navidrome_row_spec`; `None` when it has no string `id`.
pub fn navidrome_song_to_track_row(
    server_id: &str,
    raw: &JsonValue,
    synced_at: i64,
    library_id_fallback: Option<&str>,
    duration_sec: i64,
) -> (r: Option<TrackRow>)
    ensures
        match r {
            Some(row) => navidrome_row_spec(
                server_id@,
                raw@,
                synced_at,
                match library_id_fallback { Some(t) => Some(t@), None => None },
                duration_sec,
            ) == Some(row@),
            None => navidrome_row_spec(
                server_id@,
                raw@,
                synced_at,
                match library_id_fallback { Some(t) => Some(t@), None => None },
                duration_sec,
            ) is None,
        },
{
    let normalized = normalize_navidrome_participants(raw);
    let n = &normalized;
    let id = match str_field(n, "id") {
        Some(id) => id,
        None => return None,
    };
    let title = match str_field(n, "title") {
        Some(t) => t,
        None => String::new(),
    };
    let library_id = first_present(
        json_string_field(n, "libraryId"),
        first_present(
            json_string_field(n, "library_id"),
            first_present(json_string_field(n, "musicFolderId"), opt_from_str(library_id_fallback)),
        ),
    );
    let album = match string_field(n, "album") {
        Some(a) => a,
        None => String::new(),
    };
    let row = TrackRow {
        server_id: string_from(server_id),
        id,
        title,
        title_sort: first_present(
            string_field(n, "sortTitle"),
            first_present(string_field(n, "orderTitle"), string_field(n, "sortName")),
        ),
        artist: string_field(n, "artist"),
        artist_id: string_field(n, "artistId"),
        album,
        album_id: string_field(n, "albumId"),
        album_artist: string_field(n, "albumArtist"),
        duration_sec,
        track_number: i64_field(n, "trackNumber"),
        disc_number: i64_field(n, "discNumber"),
        year: i64_field(n, "year"),
        genre: string_field(n, "genre"),
        suffix: string_field(n, "suffix"),
        bit_rate: i64_field(n, "bitRate"),
        size_bytes: i64_field(n, "size"),
        cover_art_id: first_present(string_field(n, "coverArtId"), string_field(n, "coverArt")),
        starred_at: parse_opt_string(&str_field(n, "starredAt")),
        user_rating: i64_field(n, "rating"),
        play_count: i64_field(n, "playCount"),
        played_at: parse_opt_string(&str_field(n, "playedAt")),
        server_path: string_field(n, "path"),
        library_id,
        isrc: string_field(n, "isrc"),
        mbid_recording: first_present(string_field(n, "mbzTrackId"), string_field(n, "musicBrainzId")),
        bpm: i64_field(n, "bpm"),
        replay_gain_track_db: number_field(n, "rgTrackGain"),
        replay_gain_album_db: number_field(n, "rgAlbumGain"),
        replay_gain_peak: number_field(n, "rgTrackPeak"),
        content_hash: None,
        server_updated_at: parse_opt_string(&str_field(n, "updatedAt")),
        server_created_at: parse_opt_string(&str_field(n, "createdAt")),
        deleted: false,
        synced_at,
        raw_json: RawJson::Json(normalized),
    };
    Some(row)
}


// ---------------------------------------------------------------------------
// Album track rows

/// The `song` array of a `getAlbum` payload, none when absent or not an array.
pub open spec fn raw_songs_of(raw_album: Json) -> Seq<Json> {
    match json_get(raw_album, "song"@) {
        Some(Json::Array(items)) => items,
        _ => Seq::empty(),
    }
}

/// The raw JSON of the album's `i`-th song: its entry of the payload's `song`
/// array, or its own serialization when the array is shorter, with the album
/// fields merged in.
pub open spec fn album_song_raw(raw_album: Json, i: int, serialized: Seq<Json>) -> Json {
    let rs = raw_songs_of(raw_album);
    merge_album_spec(raw_album, if i < rs.len() { rs[i] } else { serialized[i] })
}

pub open spec fn values_view(vs: Seq<JsonValue>) -> Seq<Json> {
    vs.map_values(|v: JsonValue| v@)
}

/// The track rows of a `getAlbum` payload, one per song in order, each with
/// the album-level OpenSubsonic fields merged into its raw JSON.
/// `serialized_songs[i]` is the JSON serialization of `album.song[i]`, used
/// when the payload's `song` array has no entry for it.
pub fn album_track_rows(
    server_id: &str,
    album: &Album,
    raw_album: &JsonValue,
    synced_at: i64,
    library_scope: Option<&str>,
    serialized_songs: &Vec<JsonValue>,
) -> (r: Vec<TrackRow>)
    requires
        serialized_songs@.len() == album.song@.len(),
    ensures
        r@.len() == album.song@.len(),
        forall|i: int| 0 <= i < r@.len() ==> (#[trigger] r@[i])@ == subsonic_row_spec(
            server_id@,
            album.song@[i],
            album_song_raw(raw_album@, i, values_view(serialized_songs@)),
            synced_at,
            match library_scope { Some(t) => Some(t@), None => None },
        ),
{
    let empty: Vec<JsonValue> = Vec::new();
    let raw_songs: &Vec<JsonValue> = match get(raw_album, "song") {
        Some(JsonValue::Array(items)) => items,
        _ => &empty,
    };
    let ghost rs = raw_songs_of(raw_album@);
    proof {
        crate::json::lemma_view_items(raw_songs@);
        assert(view_items(empty@) =~= Seq::<Json>::empty());
    }
    assert(rs == view_items(raw_songs@));
    let mut rows: Vec<TrackRow> = Vec::new();
    let n = album.song.len();
    let mut i: usize = 0;
    while i < n
        invariant
            n == album.song@.len(),
            n == serialized_songs@.len(),
            rs == view_items(raw_songs@),
            rs.len() == raw_songs@.len(),
            forall|j: int| 0 <= j < raw_songs@.len() ==> #[trigger] view_items(raw_songs@)[j] == raw_songs@[j]@,
            rs == raw_songs_of(raw_album@),
            i <= n,
            rows@.len() == i,
            forall|j: int| 0 <= j < i ==> (#[trigger] rows@[j])@ == subsonic_row_spec(
                server_id@,
                album.song@[j],
                album_song_raw(raw_album@, j, values_view(serialized_songs@)),
                synced_at,
                match library_scope { Some(t) => Some(t@), None => None },
            ),
        decreases n - i,
    {
        let mut raw = if i < raw_songs.len() {
            clone_value(&raw_songs[i])
        } else {
            clone_value(&serialized_songs[i])
        };
        merge_album_open_subsonic_track_raw(raw_album, &mut raw);
        let row = subsonic_song_to_track_row(server_id, &album.song[i], &raw, synced_at, library_scope);
        rows.push(row);
        i = i + 1;
    }
    rows
}

/// The raw JSON fallback of a sparse endpoint: a song's own serialization with
/// every null member dropped, so that "not observed" is not read as a clear.
pub fn sparse_song_raw_fallback(serialized_song: &JsonValue) -> (r: JsonValue)
    ensures
        r@ == strip_nulls(serialized_song@),
{
    stripped(serialized_song)
}


// ---------------------------------------------------------------------------
// Laws of the album merge

proof fn lemma_album_merge_entries(es: Seq<(Seq<char>, Json)>, album: Json, keys: Seq<(Seq<char>, Seq<char>)>, k: Seq<char>)
    ensures
        (match entries_get(es, k) {
            Some(x) => usable(x),
            None => false,
        }) ==> entries_get(album_merge_entries(es, album, keys), k) == entries_get(es, k),
        entries_get(album_merge_entries(es, album, keys), k) != entries_get(es, k) ==> (match entries_get(
            album_merge_entries(es, album, keys),
            k,
        ) {
            Some(v) => usable(v),
            None => false,
        }),
    decreases keys.len(),
{
    if keys.len() > 0 {
        lemma_album_merge_entries(es, album, keys.drop_last(), k);
        let e1 = album_merge_entries(es, album, keys.drop_last());
        let kp = keys.last();
        match json_get(album, kp.0) {
            Some(v) => crate::json::lemma_get_insert(e1, kp.1, v, k),
            None => {},
        }
    }
}

/// The usable value of member `k` of `j`, if any.
pub open spec fn usable_member(j: Json, k: Seq<char>) -> Option<Json> {
    match json_get(j, k) {
        Some(x) => if usable(x) {
            Some(x)
        } else {
            None
        },
        None => None,
    }
}

/// The usable value of entry `k`, if any.
pub open spec fn usable_entry(es: Seq<(Seq<char>, Json)>, k: Seq<char>) -> Option<Json> {
    match entries_get(es, k) {
        Some(x) => if usable(x) {
            Some(x)
        } else {
            None
        },
        None => None,
    }
}

proof fn lemma_album_step_get(es: Seq<(Seq<char>, Json)>, album: Json, kp: (Seq<char>, Seq<char>), k: Seq<char>)
    ensures
        entries_get(album_merge_step(es, album, kp), k) == if k == kp.1 && usable_entry(es, kp.1) is None
            && usable_member(album, kp.0) is Some {
            usable_member(album, kp.0)
        } else {
            entries_get(es, k)
        },
{
    match json_get(album, kp.0) {
        Some(v) => crate::json::lemma_get_insert(es, kp.1, v, k),
        None => {},
    }
}

proof fn lemma_album_keys_distinct()
    ensures
        "compilation"@ != "isCompilation"@,
        "compilation"@ != "releaseTypes"@,
        "compilation"@ != "albumArtists"@,
        "compilation"@ != "displayAlbumArtist"@,
        "isCompilation"@ != "releaseTypes"@,
        "isCompilation"@ != "albumArtists"@,
        "isCompilation"@ != "displayAlbumArtist"@,
        "releaseTypes"@ != "albumArtists"@,
        "releaseTypes"@ != "displayAlbumArtist"@,
        "albumArtists"@ != "displayAlbumArtist"@,
{
    reveal_strlit("compilation");
    reveal_strlit("isCompilation");
    reveal_strlit("releaseTypes");
    reveal_strlit("albumArtists");
    reveal_strlit("displayAlbumArtist");
    assert("compilation"@[0] != "isCompilation"@[0]);
    assert("compilation"@[0] != "releaseTypes"@[0]);
    assert("compilation"@[0] != "albumArtists"@[0]);
    assert("compilation"@[0] != "displayAlbumArtist"@[0]);
    assert("isCompilation"@[0] != "releaseTypes"@[0]);
    assert("isCompilation"@[0] != "albumArtists"@[0]);
    assert("isCompilation"@[0] != "displayAlbumArtist"@[0]);
    assert("releaseTypes"@[0] != "albumArtists"@[0]);
    assert("releaseTypes"@[0] != "displayAlbumArtist"@[0]);
    assert("albumArtists"@[0] != "displayAlbumArtist"@[0]);
}

/// Each album-level field reaches a track whose payload lacks a usable value
/// there: `compilation`, `isCompilation` and `releaseTypes` under their own
/// names; the album's `artists` (else its `albumArtists`) as the track's
/// `albumArtists`; the album's `displayArtist` (else its `displayAlbumArtist`)
/// as the track's `displayAlbumArtist`.
pub proof fn law_album_fields_copied(album: Json, song: Json)
    requires
        song is Object,
    ensures
        ({
            let mg = merge_album_spec(album, song);
            &&& usable_member(song, "compilation"@) is None && usable_member(album, "compilation"@) is Some
                ==> json_get(mg, "compilation"@) == usable_member(album, "compilation"@)
            &&& usable_member(song, "isCompilation"@) is None && usable_member(album, "isCompilation"@) is Some
                ==> json_get(mg, "isCompilation"@) == usable_member(album, "isCompilation"@)
            &&& usable_member(song, "releaseTypes"@) is None && usable_member(album, "releaseTypes"@) is Some
                ==> json_get(mg, "releaseTypes"@) == usable_member(album, "releaseTypes"@)
            &&& usable_member(song, "albumArtists"@) is None && usable_member(album, "artists"@) is Some
                ==> json_get(mg, "albumArtists"@) == usable_member(album, "artists"@)
            &&& usable_member(song, "albumArtists"@) is None && usable_member(album, "artists"@) is None
                && usable_member(album, "albumArtists"@) is Some ==> json_get(mg, "albumArtists"@)
                == usable_member(album, "albumArtists"@)
            &&& usable_member(song, "displayAlbumArtist"@) is None && usable_member(album, "displayArtist"@) is Some
                ==> json_get(mg, "displayAlbumArtist"@) == usable_member(album, "displayArtist"@)
            &&& usable_member(song, "displayAlbumArtist"@) is None && usable_member(album, "displayArtist"@) is None
                && usable_member(album, "displayAlbumArtist"@) is Some ==> json_get(mg, "displayAlbumArtist"@)
                == usable_member(album, "displayAlbumArtist"@)
        }),
{
    lemma_album_keys_distinct();
    let es = match song {
        Json::Object(es) => es,
        _ => Seq::empty(),
    };
    let keys = album_to_track_raw_keys();
    let e1 = album_merge_step(es, album, keys[0]);
    let e2 = album_merge_step(e1, album, keys[1]);
    let e3 = album_merge_step(e2, album, keys[2]);
    let e4 = album_merge_step(e3, album, keys[3]);
    let e5 = album_merge_step(e4, album, keys[4]);
    let e6 = album_merge_step(e5, album, keys[5]);
    let e7 = album_merge_step(e6, album, keys[6]);
    assert(keys.take(0) =~= Seq::<(Seq<char>, Seq<char>)>::empty());
    assert(album_merge_entries(es, album, keys.take(0)) == es);
    assert(keys.take(1).drop_last() =~= keys.take(0) && keys.take(1).last() == keys[0]);
    assert(album_merge_entries(es, album, keys.take(1)) == e1);
    assert(keys.take(2).drop_last() =~= keys.take(1) && keys.take(2).last() == keys[1]);
    assert(album_merge_entries(es, album, keys.take(2)) == e2);
    assert(keys.take(3).drop_last() =~= keys.take(2) && keys.take(3).last() == keys[2]);
    assert(album_merge_entries(es, album, keys.take(3)) == e3);
    assert(keys.take(4).drop_last() =~= keys.take(3) && keys.take(4).last() == keys[3]);
    assert(album_merge_entries(es, album, keys.take(4)) == e4);
    assert(keys.take(5).drop_last() =~= keys.take(4) && keys.take(5).last() == keys[4]);
    assert(album_merge_entries(es, album, keys.take(5)) == e5);
    assert(keys.take(6).drop_last() =~= keys.take(5) && keys.take(6).last() == keys[5]);
    assert(album_merge_entries(es, album, keys.take(6)) == e6);
    assert(keys.take(7).drop_last() =~= keys.take(6) && keys.take(7).last() == keys[6]);
    assert(album_merge_entries(es, album, keys.take(7)) == e7);
    assert(keys.take(7) =~= keys);
    assert(merge_album_spec(album, song) == Json::Object(e7));
    let ks = seq!["compilation"@, "isCompilation"@, "releaseTypes"@, "albumArtists"@, "displayAlbumArtist"@];
    assert forall|n: int| 0 <= n < 5 implies {
        let k = #[trigger] ks[n];
        &&& entries_get(e1, k) == (if k == keys[0].1 && usable_entry(es, keys[0].1) is None && usable_member(album, keys[0].0) is Some { usable_member(album, keys[0].0) } else { entries_get(es, k) })
        &&& entries_get(e2, k) == (if k == keys[1].1 && usable_entry(e1, keys[1].1) is None && usable_member(album, keys[1].0) is Some { usable_member(album, keys[1].0) } else { entries_get(e1, k) })
        &&& entries_get(e3, k) == (if k == keys[2].1 && usable_entry(e2, keys[2].1) is None && usable_member(album, keys[2].0) is Some { usable_member(album, keys[2].0) } else { entries_get(e2, k) })
        &&& entries_get(e4, k) == (if k == keys[3].1 && usable_entry(e3, keys[3].1) is None && usable_member(album, keys[3].0) is Some { usable_member(album, keys[3].0) } else { entries_get(e3, k) })
        &&& entries_get(e5, k) == (if k == keys[4].1 && usable_entry(e4, keys[4].1) is None && usable_member(album, keys[4].0) is Some { usable_member(album, keys[4].0) } else { entries_get(e4, k) })
        &&& entries_get(e6, k) == (if k == keys[5].1 && usable_entry(e5, keys[5].1) is None && usable_member(album, keys[5].0) is Some { usable_member(album, keys[5].0) } else { entries_get(e5, k) })
        &&& entries_get(e7, k) == (if k == keys[6].1 && usable_entry(e6, keys[6].1) is None && usable_member(album, keys[6].0) is Some { usable_member(album, keys[6].0) } else { entries_get(e6, k) })
    } by {
        lemma_album_step_get(es, album, keys[0], ks[n]);
        lemma_album_step_get(e1, album, keys[1], ks[n]);
        lemma_album_step_get(e2, album, keys[2], ks[n]);
        lemma_album_step_get(e3, album, keys[3], ks[n]);
        lemma_album_step_get(e4, album, keys[4], ks[n]);
        lemma_album_step_get(e5, album, keys[5], ks[n]);
        lemma_album_step_get(e6, album, keys[6], ks[n]);
    }
    assert(ks[0] == "compilation"@);
    assert(ks[1] == "isCompilation"@);
    assert(ks[2] == "releaseTypes"@);
    assert(ks[3] == "albumArtists"@);
    assert(ks[4] == "displayAlbumArtist"@);
}

/// The album merge never replaces a usable value that the track carries, and
/// every value it changes is a usable one (never a null, an empty array or a
/// blank string); a track payload that is not an object is left alone.
pub proof fn law_album_merge_keeps_track_values(album: Json, song: Json, k: Seq<char>)
    ensures
        (match json_get(song, k) {
            Some(x) => usable(x),
            None => false,
        }) ==> json_get(merge_album_spec(album, song), k) == json_get(song, k),
        json_get(merge_album_spec(album, song), k) != json_get(song, k) ==> (match json_get(
            merge_album_spec(album, song),
            k,
        ) {
            Some(v) => usable(v),
            None => false,
        }),
        !(song is Object) ==> merge_album_spec(album, song) == song,
{
    match song {
        Json::Object(es) => lemma_album_merge_entries(es, album, album_to_track_raw_keys(), k),
        _ => {},
    }
}

/// A Navidrome row exists exactly when the payload has a string `id`, and then
/// carries that id, the server it was read from and the given sync time.
pub proof fn law_navidrome_row_needs_string_id(
    server_id: Seq<char>,
    raw: Json,
    synced_at: i64,
    library_id_fallback: Option<Seq<char>>,
    duration_sec: i64,
)
    ensures
        navidrome_row_spec(server_id, raw, synced_at, library_id_fallback, duration_sec) is Some
            <==> str_field_of(raw, "id"@) is Some,
        navidrome_row_spec(server_id, raw, synced_at, library_id_fallback, duration_sec) matches Some(row)
            ==> Some(row.id) == str_field_of(raw, "id"@) && row.server_id == server_id && row.synced_at == synced_at
            && !row.deleted && row.content_hash is None,
{
    lemma_normalize_keeps_id(raw);
}

/// A Subsonic row's `played_at` is the ISO-8601 reading of the song's `played`
/// text and its `starred_at` that of the song's `starred` text (nothing when
/// the text is absent or unreadable); each depends on its own field only.
pub proof fn law_subsonic_timestamps(
    server_id: Seq<char>,
    a: Song,
    b: Song,
    raw: Json,
    synced_at: i64,
    library_id_fallback: Option<Seq<char>>,
)
    ensures
        ({
            let ra = subsonic_row_spec(server_id, a, raw, synced_at, library_id_fallback);
            let rb = subsonic_row_spec(server_id, b, raw, synced_at, library_id_fallback);
            &&& ra.played_at == (match a.played {
                Some(t) => parse_iso_ms_spec(t@),
                None => None,
            })
            &&& ra.starred_at == (match a.starred {
                Some(t) => parse_iso_ms_spec(t@),
                None => None,
            })
            &&& a.played@ == b.played@ ==> ra.played_at == rb.played_at
            &&& a.starred@ == b.starred@ ==> ra.starred_at == rb.starred_at
        }),
{
}

/// Once the payload's `participants` is an object, it decides the structured
/// credits: `artists` becomes its `artist` role, `albumArtists` its
/// `albumartist` role (Navidrome's spelling), else its `albumArtist` role, and
/// a missing role becomes an empty array.
pub proof fn law_participants_roles(raw: Json)
    ensures
        json_get(raw, "participants"@) matches Some(Json::Object(ps)) ==> {
            let n = normalize_spec(raw);
            let empty = Json::Array(Seq::empty());
            &&& json_get(n, "artists"@) == Some(
                match entries_get(ps, "artist"@) {
                    Some(x) => x,
                    None => empty,
                },
            )
            &&& entries_get(ps, "albumartist"@) matches Some(x) ==> json_get(n, "albumArtists"@) == Some(x)
            &&& entries_get(ps, "albumartist"@) is None ==> json_get(n, "albumArtists"@) == Some(
                match entries_get(ps, "albumArtist"@) {
                    Some(x) => x,
                    None => empty,
                },
            )
        },
{
    reveal_strlit("artists");
    reveal_strlit("albumArtists");
    assert("artists"@.len() != "albumArtists"@.len());
    match raw {
        Json::Object(es) => {
            let es1 = match json_get(raw, "artist"@) {
                Some(a) => entries_insert(es, "displayArtist"@, a),
                None => es,
            };
            let es2 = match json_get(raw, "albumArtist"@) {
                Some(a) => entries_insert(es1, "displayAlbumArtist"@, a),
                None => es1,
            };
            let empty = Json::Array(Seq::empty());
            match json_get(raw, "participants"@) {
                Some(Json::Object(ps)) => {
                    let artists = match entries_get(ps, "artist"@) {
                        Some(x) => x,
                        None => empty,
                    };
                    let album_artists = match entries_get(ps, "albumartist"@) {
                        Some(x) => x,
                        None => match entries_get(ps, "albumArtist"@) {
                            Some(x) => x,
                            None => empty,
                        },
                    };
                    let e3 = entries_insert(es2, "artists"@, artists);
                    crate::json::lemma_get_insert(es2, "artists"@, artists, "artists"@);
                    crate::json::lemma_get_insert(e3, "albumArtists"@, album_artists, "artists"@);
                    crate::json::lemma_get_insert(e3, "albumArtists"@, album_artists, "albumArtists"@);
                },
                _ => {},
            }
        },
        _ => {},
    }
}

proof fn lemma_normalize_keeps_id(raw: Json)
    ensures
        str_field_of(normalize_spec(raw), "id"@) == str_field_of(raw, "id"@),
{
    reveal_strlit("id");
    reveal_strlit("displayArtist");
    reveal_strlit("displayAlbumArtist");
    reveal_strlit("artists");
    reveal_strlit("albumArtists");
    assert("id"@.len() == 2);
    assert("displayArtist"@.len() != 2);
    assert("id"@ != "displayArtist"@);
    assert("id"@ != "displayAlbumArtist"@);
    assert("id"@ != "artists"@);
    assert("id"@ != "albumArtists"@);
    match raw {
        Json::Object(es) => {
            let k = "id"@;
            let es1 = match json_get(raw, "artist"@) {
                Some(a) => entries_insert(es, "displayArtist"@, a),
                None => es,
            };
            let es2 = match json_get(raw, "albumArtist"@) {
                Some(a) => entries_insert(es1, "displayAlbumArtist"@, a),
                None => es1,
            };
            match json_get(raw, "artist"@) {
                Some(a) => crate::json::lemma_get_insert(es, "displayArtist"@, a, k),
                None => {},
            }
            match json_get(raw, "albumArtist"@) {
                Some(a) => crate::json::lemma_get_insert(es1, "displayAlbumArtist"@, a, k),
                None => {},
            }
            let empty = Json::Array(Seq::empty());
            match json_get(raw, "participants"@) {
                Some(Json::Object(ps)) => {
                    let artists = match entries_get(ps, "artist"@) {
                        Some(x) => x,
                        None => empty,
                    };
                    let album_artists = match entries_get(ps, "albumartist"@) {
                        Some(x) => x,
                        None => match entries_get(ps, "albumArtist"@) {
                            Some(x) => x,
                            None => empty,
                        },
                    };
                    crate::json::lemma_get_insert(es2, "artists"@, artists, k);
                    crate::json::lemma_get_insert(entries_insert(es2, "artists"@, artists), "albumArtists"@, album_artists, k);
                },
                Some(Json::Null) => {},
                None => {},
                Some(_) => {
                    crate::json::lemma_get_insert(es2, "artists"@, empty, k);
                    crate::json::lemma_get_insert(entries_insert(es2, "artists"@, empty), "albumArtists"@, empty, k);
                },
            }
        },
        _ => {},
    }
}

} // verus!
