use pood::model::Episode;
use pood::reconcile::{has_title, reconcile};

fn titled(t: &str) -> Episode {
    let mut e = Episode::new();
    e.title = t.to_string();
    e
}

fn titles(eps: &[Episode]) -> Vec<String> {
    eps.iter().map(|e| e.title.clone()).collect()
}

#[test]
fn reconcile_finds_the_one_new_episode() {
    let stored = vec![titled("Ep1")];
    let live = vec![titled("Ep1"), titled("Ep2")];
    let (fresh, count) = reconcile(&stored, &live);
    assert_eq!(titles(&fresh), vec!["Ep2".to_string()]);
    assert_eq!(count, 1);
}

#[test]
fn reconcile_twice_finds_nothing_more() {
    let mut stored = vec![titled("a"), titled("b")];
    let live = vec![titled("c"), titled("a"), titled("d"), titled("c")];
    let (fresh, count) = reconcile(&stored, &live);
    assert_eq!(titles(&fresh), vec!["c", "d", "c"]);
    assert_eq!(count, 3);
    stored.extend(fresh);
    let (again, count) = reconcile(&stored, &live);
    assert!(again.is_empty());
    assert_eq!(count, 0);
}

#[test]
fn reconcile_count_is_live_less_known() {
    let stored = vec![titled("x"), titled("y")];
    let live = vec![titled("y"), titled("z"), titled("x"), titled("w"), titled("y")];
    let known = live.iter().filter(|e| stored.iter().any(|s| s.title == e.title)).count();
    let (_, count) = reconcile(&stored, &live);
    assert_eq!(count, live.len() - known);
    assert_eq!(count, 2);
}

#[test]
fn reconcile_with_nothing_stored_keeps_everything_in_order() {
    let live = vec![titled("1"), titled("2"), titled("3")];
    let (fresh, count) = reconcile(&[], &live);
    assert_eq!(titles(&fresh), vec!["1", "2", "3"]);
    assert_eq!(count, 3);
}

#[test]
fn reconcile_keeps_all_fields_of_new_episodes() {
    let mut e = titled("n");
    e.description = "d".to_string();
    e.url = "http://a/b.mp3".to_string();
    e.date = "Mon".to_string();
    e.duration = "10:00".to_string();
    let (fresh, _) = reconcile(&[], &[e]);
    assert_eq!(fresh[0].description, "d");
    assert_eq!(fresh[0].url, "http://a/b.mp3");
    assert_eq!(fresh[0].date, "Mon");
    assert_eq!(fresh[0].duration, "10:00");
}

#[test]
fn untitled_episodes_collide() {
    let stored = vec![titled("")];
    let live = vec![titled(""), titled("t")];
    let (fresh, count) = reconcile(&stored, &live);
    assert_eq!(titles(&fresh), vec!["t"]);
    assert_eq!(count, 1);
}

#[test]
fn has_title_is_exact() {
    let stored = vec![titled("Ep1"), titled("Ep10")];
    assert!(has_title(&stored, &"Ep10".to_string()));
    assert!(!has_title(&stored, &"ep1".to_string()));
    assert!(!has_title(&stored, &"Ep".to_string()));
}
