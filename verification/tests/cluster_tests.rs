use quiet::data::cluster::NotificationCluster;
use quiet::data::notification::Notification;

fn notif(id: u32, app: &str, summary: &str, body: &str, urgency: u8) -> Notification {
    Notification::new(id, app.into(), "".into(), summary.into(), body.into(), vec![], urgency, -1)
}

#[test]
fn test_cluster_insert_and_count() {
    let mut root = NotificationCluster::new();
    assert_eq!(root.len(), 0);
    assert!(root.is_empty());

    let n1 = notif(1, "slack", "msg 1", "body 1", 1);
    let n2 = notif(2, "slack", "msg 2", "body 2", 2);
    let n3 = notif(3, "mail", "email", "body 3", 0);

    root.insert(&["slack".into(), "channel1".into()], n1.clone());
    root.insert(&["slack".into(), "channel1".into()], n2.clone());
    root.insert(&["mail".into()], n3.clone());

    assert_eq!(root.len(), 3);
    assert_eq!(root.urgency(), 2);
    assert_eq!(root.best().unwrap().id, 2);

    let removed = root.remove(&["slack".into(), "channel1".into()], 2);
    assert!(removed.is_some());
    assert_eq!(removed.unwrap().id, 2);
    assert_eq!(root.len(), 2);
    assert_eq!(root.urgency(), 1);
    assert_eq!(root.best().unwrap().id, 1);

    let removed_leafs = root.remove_branch("slack");
    assert_eq!(removed_leafs.len(), 1);
    assert_eq!(removed_leafs[0].id, 1);
    assert_eq!(root.len(), 1);
    assert_eq!(root.urgency(), 0);
    assert_eq!(root.best().unwrap().id, 3);
}

#[test]
fn test_remove_branch_path_nested() {
    let mut root = NotificationCluster::new();
    let n1 = notif(1, "chrome", "chat", "hey", 1);
    let n2 = notif(2, "chrome", "mail", "inbox", 1);

    root.insert(&["chrome".into(), "chat.google.com".into()], n1);
    root.insert(&["chrome".into(), "mail.google.com".into()], n2);
    assert_eq!(root.len(), 2);

    let removed = root.remove_branch_path(&["chrome".into(), "chat.google.com".into()]);
    assert_eq!(removed.len(), 1);
    assert_eq!(removed[0].id, 1);
    assert_eq!(root.len(), 1);
    assert!(root.has_context(&["chrome".into(), "mail.google.com".into()]));
    assert!(!root.has_context(&["chrome".into(), "chat.google.com".into()]));
}

#[test]
fn test_leaf_collision_preservation() {
    let mut root = NotificationCluster::new();
    let n1 = notif(1, "slack", "leaf", "b1", 1);
    let n2 = notif(2, "slack", "sub", "b2", 1);

    root.insert(&["slack".into()], n1);
    assert_eq!(root.len(), 1);

    root.insert(&["slack".into(), "general".into()], n2);
    assert_eq!(root.len(), 2);

    let items = root.leafs();
    assert_eq!(items.len(), 2);
    let ids: Vec<u32> = items.iter().map(|n| n.id).collect();
    assert!(ids.contains(&1));
    assert!(ids.contains(&2));
}

#[test]
fn test_resolve_context_auto_descent() {
    let mut root = NotificationCluster::new();
    let n1 = notif(1, "app", "sum", "body", 1);
    root.insert(&["a".into(), "b".into(), "c".into()], n1);

    let (resolved, cluster) = root.resolve_context(&["a".into()], true);
    assert_eq!(resolved, vec!["a".to_string(), "b".to_string(), "c".to_string()]);
    assert_eq!(cluster.len(), 1);
}

#[test]
fn insert_then_remove_gives_back_the_notification() {
    let mut root = NotificationCluster::new();
    root.insert(&["x".into()], notif(5, "a", "s", "b", 1));
    let before = root.len();
    root.insert(&["x".into(), "y".into()], notif(6, "a", "s2", "b2", 2));
    assert_eq!(root.len(), before + 1);
    let back = root.remove(&["x".into(), "y".into()], 6).unwrap();
    assert_eq!(back.id, 6);
    assert_eq!(back.summary, "s2");
    assert_eq!(root.len(), before);
}

#[test]
fn urgency_is_the_highest_and_zero_when_empty() {
    let mut root = NotificationCluster::new();
    assert_eq!(root.urgency(), 0);
    assert!(root.best().is_none());
    root.insert(&["a".into()], notif(1, "a", "s", "b", 0));
    root.insert(&["b".into()], notif(2, "b", "s", "b", 2));
    root.insert(&["c".into()], notif(3, "c", "s", "b", 1));
    assert_eq!(root.urgency(), 2);
    assert_eq!(root.best().unwrap().id, 2);
}

#[test]
fn remove_of_unknown_id_changes_nothing() {
    let mut root = NotificationCluster::new();
    root.insert(&["a".into()], notif(1, "a", "s", "b", 1));
    assert!(root.remove(&["a".into()], 42).is_none());
    assert!(root.remove(&["zzz".into()], 1).is_none());
    assert_eq!(root.len(), 1);
}

#[test]
fn get_context_without_descent_stops_at_path() {
    let mut root = NotificationCluster::new();
    root.insert(&["a".into(), "b".into()], notif(1, "a", "s", "b", 1));
    let c = root.get_context(&["a".into()], false);
    assert_eq!(c.len(), 1);
    assert!(root.has_context(&["a".into(), "b".into()]));
    assert!(!root.has_context(&["a".into(), "b".into(), "1".into()]));
}

#[test]
fn a_copied_tree_equals_the_original() {
    let mut tree = NotificationCluster::new();
    tree.insert(&["Chrome".to_string(), "Gmail".to_string()], notif(1, "Gmail", "a", "b", 1));
    tree.insert(&["Chrome".to_string(), "Gmail".to_string()], notif(2, "Gmail", "c", "d", 2));
    tree.insert(&["slack".to_string()], notif(3, "slack", "e", "f", 0));
    let copy = tree.clone();
    assert_eq!(copy, tree);
    assert_eq!(copy.len(), 3);
    tree.remove(&["slack".to_string()], 3);
    assert_ne!(copy, tree);
    assert_eq!(copy.len(), 3);
}

#[test]
fn has_context_holds_for_the_empty_path_and_every_prefix() {
    let mut root = NotificationCluster::new();
    assert!(root.has_context(&[]));
    root.insert(&["a".into(), "b".into(), "c".into()], notif(1, "a", "s", "b", 0));
    let path: Vec<String> = vec!["a".into(), "b".into(), "c".into()];
    for i in 0..=path.len() {
        assert!(root.has_context(&path[..i]));
        let (reached, _) = root.resolve_context(&path[..i], false);
        assert_eq!(reached, path[..i].to_vec());
    }
    assert!(!root.has_context(&["a".into(), "x".into()]));
    let (reached, _) = root.resolve_context(&["a".into(), "x".into()], false);
    assert_eq!(reached, vec!["a".to_string()]);
}

#[test]
fn removal_prunes_emptied_groups_so_empty_means_no_notification() {
    let mut root = NotificationCluster::new();
    root.insert(&["a".into(), "b".into()], notif(1, "a", "s", "b", 0));
    root.insert(&["c".into()], notif(2, "c", "s", "b", 0));
    assert!(root.remove(&["a".into(), "b".into()], 1).is_some());
    assert!(!root.has_context(&["a".into()]));
    assert_eq!(root.len(), 1);
    assert!(!root.is_empty());
    let gone = root.remove_branch_path(&["c".into()]);
    assert_eq!(gone.len(), 1);
    assert_eq!(root.len(), 0);
    assert!(root.is_empty());
}

#[test]
fn filing_through_a_notification_keeps_it() {
    let mut root = NotificationCluster::new();
    let old = notif(7, "x", "old", "b", 0);
    let new = notif(8, "x", "new", "b", 0);
    root.insert(&[], old.clone());
    root.insert(&["7".into()], new.clone());
    let mut ids: Vec<u32> = root.leafs().iter().map(|n| n.id).collect();
    ids.sort();
    assert_eq!(ids, vec![7, 8]);
    assert_eq!(root.len(), 2);
}

#[test]
fn remove_finds_a_notification_where_the_walk_stops() {
    let mut root = NotificationCluster::new();
    root.insert(&[], notif(5, "x", "s", "b", 0));
    // The walk along ["5", "deeper"] stops at the notification keyed "5".
    let r = root.remove(&["5".into(), "deeper".into()], 5);
    assert_eq!(r.map(|n| n.id), Some(5));
    assert_eq!(root.len(), 0);
    root.insert(&[], notif(6, "x", "s", "b", 0));
    assert!(root.remove(&["6".into(), "deeper".into()], 9).is_none());
    assert_eq!(root.len(), 1);
}

#[test]
fn filing_then_removing_gives_back_the_same_tree() {
    let mut root = NotificationCluster::new();
    root.insert(&["a".into(), "b".into()], notif(1, "a", "s", "b", 0));
    root.insert(&["c".into()], notif(2, "c", "s", "b", 1));
    let before = root.clone();
    root.insert(&["a".into(), "new".into(), "deep".into()], notif(3, "a", "t", "u", 2));
    assert_ne!(root, before);
    assert_eq!(root.remove(&["a".into(), "new".into(), "deep".into()], 3).map(|n| n.id), Some(3));
    assert_eq!(root, before);
}
