//! Scenario tests for the command flows: initialize, increment, set,
//! remove, and display, each exercised through the library the way the
//! command-line front end drives it.

use upnext::errors::UpNextError;
use upnext::facade::{load_series_list, render_series, save_series_list};
use upnext::schema::SeriesList;

#[test]
fn test_init() {
    // initializing tracking in an empty configuration writes one table
    let mut list = SeriesList::new();
    list.add_series(b"/shows/alpha".to_vec()).unwrap();
    let saved = save_series_list(b"", &list).unwrap();
    assert_eq!(
        saved,
        b"[[series]]\npath = \"/shows/alpha\"\nnext_episode = 1\n".to_vec()
    );
}

#[test]
fn test_init_twice() {
    // initializing an already tracked directory fails and changes nothing
    let before = b"[[series]]\npath = \"/shows/alpha\"\nnext_episode = 1\n";
    let mut list = load_series_list(before).unwrap();
    let r = list.add_series(b"/shows/alpha".to_vec());
    assert!(matches!(r, Err(UpNextError::SeriesAlreadyExists)));
    assert_eq!(list.series.len(), 1);
    let saved = save_series_list(before, &list).unwrap();
    assert_eq!(saved, before.to_vec());
}

#[test]
fn test_increment_episode() {
    let before = b"[[series]]\npath = \"/shows/alpha\"\nnext_episode = 1\n";
    let mut list = load_series_list(before).unwrap();
    let entry = list.find_series_mut(b"/shows/alpha").unwrap();
    entry.advance(2).unwrap();
    let saved = save_series_list(before, &list).unwrap();
    assert_eq!(
        saved,
        b"[[series]]\npath = \"/shows/alpha\"\nnext_episode = 3\n".to_vec()
    );
}

#[test]
fn test_increment_episode_default_value() {
    let before = b"[[series]]\npath = \"/shows/alpha\"\nnext_episode = 1\n";
    let mut list = load_series_list(before).unwrap();
    let entry = list.find_series_mut(b"/shows/alpha").unwrap();
    entry.advance(1).unwrap();
    let saved = save_series_list(before, &list).unwrap();
    assert_eq!(
        saved,
        b"[[series]]\npath = \"/shows/alpha\"\nnext_episode = 2\n".to_vec()
    );
}

#[test]
fn test_remove_from_empty() {
    // removing in a directory that was never tracked fails up front
    let list = load_series_list(b"").unwrap();
    assert_eq!(list.series.len(), 0);
    let r = list.find_series(b"/shows/alpha");
    assert!(matches!(r, Err(UpNextError::MissingSeries)));
    let mut list = list;
    list.remove_series(b"/shows/alpha");
    assert_eq!(list.series.len(), 0);
}

#[test]
fn test_print_series_info() {
    // display goes through the same machinery as a save, comments included
    let text = b"[[series]]\npath = \"/shows/alpha\"\nnext_episode = 2 # halfway\n";
    let list = load_series_list(text).unwrap();
    let entry = list.find_series(b"/shows/alpha").unwrap();
    let shown = render_series(text, entry).unwrap();
    assert_eq!(
        shown,
        b"[[series]]\npath = \"/shows/alpha\"\nnext_episode = 2 # halfway\n".to_vec()
    );
}

#[test]
fn test_set_next_episode() {
    let before = b"[[series]]\npath = \"/shows/alpha\"\nnext_episode = 7\n";
    let mut list = load_series_list(before).unwrap();
    let entry = list.find_series_mut(b"/shows/alpha").unwrap();
    entry.set_episode(42);
    let saved = save_series_list(before, &list).unwrap();
    assert_eq!(
        saved,
        b"[[series]]\npath = \"/shows/alpha\"\nnext_episode = 42\n".to_vec()
    );
}
