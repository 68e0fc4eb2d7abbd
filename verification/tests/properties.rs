//! Tests of the stated properties of the document engine: byte-exact
//! round-trips, comment preservation, pruning, insertion order, the
//! uniqueness invariant, the completion boundary, and the end-to-end
//! flow, along with the edge cases of the grammar.

use upnext::doc::serialize;
use upnext::errors::UpNextError;
use upnext::facade::{load_series_list, render_series, save_series_list};
use upnext::parse::parse_document;
use upnext::schema::SeriesList;

fn list_of(entries: &[(&[u8], i64)]) -> SeriesList {
    let mut list = SeriesList::new();
    for (p, n) in entries {
        list.add_series(p.to_vec()).unwrap();
        let e = list.find_series_mut(p).unwrap();
        e.advance(n - 1).unwrap();
    }
    list
}

#[test]
fn roundtrip_identity_with_comments() {
    let text: &[u8] = b"# my shows\n\n[[series]]  # favourite\n  path = \"/a b\"\nnext_episode = 3   # tuesday\n\n# trailing notes\n";
    let doc = parse_document(text).unwrap();
    assert_eq!(serialize(&doc), text.to_vec());
}

#[test]
fn roundtrip_identity_no_final_newline() {
    let text: &[u8] = b"[[series]]\npath = \"/a\"\nnext_episode = 2";
    let doc = parse_document(text).unwrap();
    assert_eq!(serialize(&doc), text.to_vec());
}

#[test]
fn roundtrip_identity_unrelated_content() {
    let text: &[u8] = b"title = \"mine\"\n\n[[other]]\nx = -17\n\n[[series]]\npath = \"/a\"\nnext_episode = 1\n";
    let doc = parse_document(text).unwrap();
    assert_eq!(serialize(&doc), text.to_vec());
}

#[test]
fn comment_on_updated_value_is_preserved() {
    let before: &[u8] =
        b"[[series]]\n# hand note\npath = \"/a\"\nnext_episode = 3 # watched on Tuesday\n";
    let list = list_of(&[(b"/a", 7)]);
    let saved = save_series_list(before, &list).unwrap();
    assert_eq!(
        saved,
        b"[[series]]\n# hand note\npath = \"/a\"\nnext_episode = 7 # watched on Tuesday\n"
            .to_vec()
    );
}

#[test]
fn pruning_keeps_survivors_in_order() {
    let before: &[u8] = b"[[series]]\npath = \"/a\" # first\nnext_episode = 1\n[[series]]\npath = \"/b\"\nnext_episode = 2\n[[series]]\npath = \"/c\"\nnext_episode = 3\n";
    let list = list_of(&[(b"/a", 1), (b"/c", 3)]);
    let saved = save_series_list(before, &list).unwrap();
    assert_eq!(
        saved,
        b"[[series]]\npath = \"/a\" # first\nnext_episode = 1\n[[series]]\npath = \"/c\"\nnext_episode = 3\n"
            .to_vec()
    );
}

#[test]
fn pruning_drops_corrupted_entries_silently() {
    // a table whose path is not a string is treated as matching nothing
    let before: &[u8] = b"[[series]]\npath = 9\nnext_episode = 1\n[[series]]\npath = \"/a\"\nnext_episode = 2\n";
    let list = list_of(&[(b"/a", 2)]);
    let saved = save_series_list(before, &list).unwrap();
    assert_eq!(saved, b"[[series]]\npath = \"/a\"\nnext_episode = 2\n".to_vec());
}

#[test]
fn insertion_order_follows_the_list() {
    let list = list_of(&[(b"/x", 1), (b"/y", 5)]);
    let saved = save_series_list(b"", &list).unwrap();
    assert_eq!(
        saved,
        b"[[series]]\npath = \"/x\"\nnext_episode = 1\n[[series]]\npath = \"/y\"\nnext_episode = 5\n"
            .to_vec()
    );
}

#[test]
fn adding_existing_path_fails_and_keeps_list() {
    let mut list = list_of(&[(b"/x", 4)]);
    let r = list.add_series(b"/x".to_vec());
    assert!(matches!(r, Err(UpNextError::SeriesAlreadyExists)));
    assert_eq!(list.series.len(), 1);
    assert_eq!(list.series[0].next_episode, 4);
}

#[test]
fn episode_past_the_last_file_is_over() {
    // three files watched, next would be the fourth: the series is over
    let r = upnext::media::next_episode_index(4, 3);
    assert!(matches!(r, Err(UpNextError::SeriesOver)));
    // the player is never reached for such an entry: there is no index
    let r = upnext::media::next_episode_index(3, 3);
    assert_eq!(r.unwrap(), 2);
    let r = upnext::media::next_episode_index(0, 3);
    assert!(matches!(r, Err(UpNextError::GenericError(_))));
}

#[test]
fn end_to_end_init_then_advance() {
    // start from nothing, initialize, then advance by two
    let mut list = SeriesList::new();
    list.add_series(b"/d".to_vec()).unwrap();
    let text1 = save_series_list(b"", &list).unwrap();
    assert_eq!(text1, b"[[series]]\npath = \"/d\"\nnext_episode = 1\n".to_vec());

    let mut list = load_series_list(&text1).unwrap();
    let entry = list.find_series_mut(b"/d").unwrap();
    entry.advance(2).unwrap();
    let text2 = save_series_list(&text1, &list).unwrap();
    assert_eq!(text2, b"[[series]]\npath = \"/d\"\nnext_episode = 3\n".to_vec());
}

#[test]
fn malformed_text_is_a_schema_error() {
    assert!(matches!(
        load_series_list(b"not a document"),
        Err(UpNextError::SchemaError(_))
    ));
    assert!(matches!(
        save_series_list(b"[[series\n", &SeriesList::new()),
        Err(UpNextError::SchemaError(_))
    ));
    assert!(matches!(
        parse_document(b"path = \"unterminated\n"),
        Err(UpNextError::SchemaError(_))
    ));
}

#[test]
fn series_bound_to_plain_value_is_a_schema_error() {
    let text: &[u8] = b"series = 3\n";
    assert!(matches!(
        save_series_list(text, &SeriesList::new()),
        Err(UpNextError::SchemaError(_))
    ));
    assert!(matches!(
        load_series_list(text),
        Err(UpNextError::SchemaError(_))
    ));
}

#[test]
fn load_validates_the_record_shape() {
    // no series table at all
    assert!(matches!(
        load_series_list(b"# just a comment\n"),
        Err(UpNextError::SchemaError(_))
    ));
    // path is not a string
    assert!(matches!(
        load_series_list(b"[[series]]\npath = 4\nnext_episode = 1\n"),
        Err(UpNextError::SchemaError(_))
    ));
    // next_episode is missing
    assert!(matches!(
        load_series_list(b"[[series]]\npath = \"/a\"\n"),
        Err(UpNextError::SchemaError(_))
    ));
    // a full record loads
    let list = load_series_list(b"[[series]]\nnext_episode = 9\npath = \"/a\"\n").unwrap();
    assert_eq!(list.series.len(), 1);
    assert_eq!(list.series[0].path, b"/a".to_vec());
    assert_eq!(list.series[0].next_episode, 9);
}

#[test]
fn integer_literals_cover_the_signed_range() {
    let list =
        load_series_list(b"[[series]]\npath = \"/a\"\nnext_episode = 9223372036854775807\n")
            .unwrap();
    assert_eq!(list.series[0].next_episode, i64::MAX);
    let list =
        load_series_list(b"[[series]]\npath = \"/a\"\nnext_episode = -9223372036854775808\n")
            .unwrap();
    assert_eq!(list.series[0].next_episode, i64::MIN);
    // one past the range is not a literal of the grammar
    assert!(matches!(
        load_series_list(b"[[series]]\npath = \"/a\"\nnext_episode = 9223372036854775808\n"),
        Err(UpNextError::SchemaError(_))
    ));
    assert!(matches!(
        parse_document(b"n = 12345678901234567890123\n"),
        Err(UpNextError::SchemaError(_))
    ));
}

#[test]
fn unstorable_path_is_rejected_at_save() {
    let mut list = SeriesList::new();
    list.add_series(b"/quo\"te".to_vec()).unwrap();
    assert!(matches!(
        save_series_list(b"", &list),
        Err(UpNextError::GenericError(_))
    ));
}

#[test]
fn render_creates_a_fresh_table_for_unknown_paths() {
    let list = list_of(&[(b"/new", 5)]);
    let shown = render_series(b"", &list.series[0]).unwrap();
    assert_eq!(
        shown,
        b"[[series]]\npath = \"/new\"\nnext_episode = 5\n".to_vec()
    );
}

#[test]
fn render_reports_corrupt_tables() {
    let text: &[u8] = b"[[series]]\nnext_episode = 1\n";
    let list = list_of(&[(b"/a", 1)]);
    assert!(matches!(
        render_series(text, &list.series[0]),
        Err(UpNextError::SchemaError(_))
    ));
}

#[test]
fn search_matches_without_regard_to_case() {
    let list = list_of(&[(b"/Shows/Alpha", 1), (b"/other", 2)]);
    let hits = upnext::media::search_series(&list, b"ALPHA");
    assert_eq!(hits.len(), 1);
    assert_eq!(hits[0].path, b"/Shows/Alpha".to_vec());
    let none = upnext::media::search_series(&list, b"beta");
    assert_eq!(none.len(), 0);
}

#[test]
fn video_files_are_selected_and_ordered() {
    let names: Vec<Vec<u8>> = vec![
        b"/d/b.mkv".to_vec(),
        b"/d/a.mp4".to_vec(),
        b"/d/notes.txt".to_vec(),
        b"/d/c.webm".to_vec(),
    ];
    let files = upnext::media::select_video_files(&names).unwrap();
    assert_eq!(
        files,
        vec![b"/d/a.mp4".to_vec(), b"/d/b.mkv".to_vec(), b"/d/c.webm".to_vec()]
    );
    // an entry without an extension fails the whole listing
    let bad: Vec<Vec<u8>> = vec![b"/d/a.mkv".to_vec(), b"/d/README".to_vec()];
    assert!(matches!(
        upnext::media::select_video_files(&bad),
        Err(UpNextError::GenericError(_))
    ));
    // a leading dot alone is not an extension
    let hidden: Vec<Vec<u8>> = vec![b"/d/.hidden".to_vec()];
    assert!(matches!(
        upnext::media::select_video_files(&hidden),
        Err(UpNextError::GenericError(_))
    ));
}

#[test]
fn episode_number_check_and_confirmation() {
    assert!(upnext::media::episode_number_in_name(b"show-s01e03.mkv", 3));
    assert!(!upnext::media::episode_number_in_name(b"show-final.mkv", 3));
    assert!(upnext::media::confirmation_accepts(b""));
    assert!(upnext::media::confirmation_accepts(b"yes"));
    assert!(upnext::media::confirmation_accepts(b"Y"));
    assert!(!upnext::media::confirmation_accepts(b"no"));
    assert!(!upnext::media::confirmation_accepts(b"N"));
    // a y anywhere accepts, an n anywhere declines, and n wins over y
    assert!(upnext::media::confirmation_accepts(b"maybe"));
    assert!(!upnext::media::confirmation_accepts(b"ok"));
    assert!(!upnext::media::confirmation_accepts(b"yeah nah"));
}

#[test]
fn config_path_resolution() {
    let r = upnext::media::resolve_config_path(Some(b"/tmp/override.toml".to_vec()), None);
    assert_eq!(r.unwrap(), b"/tmp/override.toml".to_vec());
    let r = upnext::media::resolve_config_path(None, Some(b"/home/me".to_vec()));
    assert_eq!(r.unwrap(), b"/home/me/.upnext.toml".to_vec());
    let r = upnext::media::resolve_config_path(None, None);
    assert!(matches!(r, Err(UpNextError::GenericError(_))));
}

#[test]
fn removing_a_path_keeps_the_rest_in_order() {
    let mut list = list_of(&[(b"/a", 1), (b"/b", 2), (b"/c", 3)]);
    list.remove_series(b"/b");
    assert_eq!(list.series.len(), 2);
    assert_eq!(list.series[0].path, b"/a".to_vec());
    assert_eq!(list.series[1].path, b"/c".to_vec());
}

#[test]
fn reconcile_updates_only_the_first_table_per_path() {
    // duplicate tables for the same path survive; only the first is updated
    let before: &[u8] = b"[[series]]\npath = \"/a\"\nnext_episode = 1\n[[series]]\npath = \"/a\"\nnext_episode = 9\n";
    let list = list_of(&[(b"/a", 5)]);
    let saved = save_series_list(before, &list).unwrap();
    assert_eq!(
        saved,
        b"[[series]]\npath = \"/a\"\nnext_episode = 5\n[[series]]\npath = \"/a\"\nnext_episode = 9\n"
            .to_vec()
    );
}

#[test]
fn reconcile_adds_missing_episode_field() {
    let before: &[u8] = b"[[series]]\npath = \"/a\"\n";
    let list = list_of(&[(b"/a", 2)]);
    let saved = save_series_list(before, &list).unwrap();
    assert_eq!(
        saved,
        b"[[series]]\npath = \"/a\"\nnext_episode = 2\n".to_vec()
    );
}

#[test]
fn appending_to_text_without_final_newline_adds_one() {
    let before: &[u8] = b"[[series]]\npath = \"/a\"\nnext_episode = 1";
    let list = list_of(&[(b"/a", 1), (b"/b", 1)]);
    let saved = save_series_list(before, &list).unwrap();
    assert_eq!(
        saved,
        b"[[series]]\npath = \"/a\"\nnext_episode = 1\n[[series]]\npath = \"/b\"\nnext_episode = 1\n"
            .to_vec()
    );
}
