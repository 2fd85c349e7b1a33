use rustasshn::state::{default_path, unique_non_empty, Store, RECENTS_LIMIT};

#[test]
fn test_toggle_favorite_and_recents() {
    let mut s = Store::default();
    assert!(s.toggle_favorite("edge1"));
    assert!(s.is_favorite("edge1"));
    assert!(!s.toggle_favorite("edge1"));
    s.add_recent("one");
    s.add_recent("two");
    s.add_recent("one");
    assert_eq!(s.recents[0], "one");
    assert_eq!(s.recents.len(), 2);
}

#[test]
fn test_recents_cap_at_100() {
    let mut s = Store::default();
    for i in 0..150 {
        s.add_recent(&format!("host-{}", i));
    }
    assert!(s.recents.len() <= RECENTS_LIMIT);
}

#[test]
fn test_toggle_favorite_ignores_empty() {
    let mut s = Store::default();
    assert!(!s.toggle_favorite(""));
    assert!(!s.toggle_favorite("  "));
}

#[test]
fn test_default_path_uses_xdg() {
    let p = default_path(Some("/tmp/xdg-home"), Some("/home/u")).unwrap();
    assert!(p.starts_with('/'));
    assert!(p.starts_with("/tmp/xdg-home"));
    assert_eq!(p, "/tmp/xdg-home/tmux-ssh-manager/state.json");
}

#[test]
fn toggling_twice_restores_the_store() {
    let mut s = Store::default();
    s.toggle_favorite("a");
    s.add_recent("r1");
    let before_f = s.favorites.clone();
    let before_r = s.recents.clone();
    assert!(s.toggle_favorite(" b "));
    assert!(s.is_favorite("b"));
    assert!(!s.toggle_favorite("b"));
    assert_eq!(s.favorites, before_f);
    assert_eq!(s.recents, before_r);
}

#[test]
fn recents_head_once_and_capped() {
    let mut s = Store::default();
    for i in 0..120 {
        s.add_recent(&format!("h{}", i % 110));
    }
    assert_eq!(s.recents.len(), RECENTS_LIMIT);
    assert_eq!(s.recents[0], "h9");
    assert_eq!(s.recents.iter().filter(|r| *r == "h9").count(), 1);
    s.add_recent("  ");
    assert_eq!(s.recents[0], "h9");
}

#[test]
fn normalize_cleans_lists() {
    let mut s = Store {
        version: 0,
        favorites: vec![" a ".into(), "".into(), "a".into(), "b".into()],
        recents: (0..130).map(|i| format!("r{}", i)).collect(),
        updated_at: String::new(),
    };
    s.normalize();
    assert_eq!(s.version, 1);
    assert_eq!(s.favorites, vec!["a".to_string(), "b".to_string()]);
    assert_eq!(s.recents.len(), RECENTS_LIMIT);
    let snapshot = (s.favorites.clone(), s.recents.clone());
    s.normalize();
    assert_eq!((s.favorites.clone(), s.recents.clone()), snapshot);
    assert_eq!(unique_non_empty(&vec![" x".into(), "x ".into(), " ".into()]), vec!["x".to_string()]);
}

#[test]
fn stamping_sets_the_time() {
    let mut s = Store::default();
    s.toggle_favorite(" a ");
    s.version = 0;
    s.stamp_for_save("2024-05-06T07:08:09+00:00");
    assert_eq!(s.updated_at, "2024-05-06T07:08:09+00:00");
    assert_eq!(s.version, 1);
    assert_eq!(s.favorites, vec!["a".to_string()]);
}

#[test]
fn using_a_recent_twice_changes_nothing() {
    let mut s = Store::default();
    s.add_recent("x");
    s.add_recent("y");
    let once = s.recents.clone();
    s.add_recent("y");
    assert_eq!(s.recents, once);
}
