use reposcan::reconcile::apply_edits;
use reposcan::reconcile::new_paths;
use reposcan::reconcile::obsolete_paths;
use reposcan::registry::Registry;

fn cv(s: &str) -> Vec<char> {
    s.chars().collect()
}

fn cs(v: &[char]) -> String {
    v.iter().collect()
}

#[test]
fn reconciliation_reports_and_applies_edits() {
    // Known in scope: {alpha, beta}; discovered: {beta, gamma}.  After add + prune
    // the in-scope registry is exactly {beta, gamma}.
    let mut known = Registry::new();
    known.insert(cv("/t/alpha"));
    known.insert(cv("/t/beta"));
    known.insert(cv("/outside/q"));
    let scope = known.scope(&cv("/t"));
    let discovered = vec![cv("/t/beta"), cv("/t/gamma")];

    let new = new_paths(&discovered, &scope);
    let obsolete = obsolete_paths(&discovered, &scope);
    assert_eq!(new.len(), 1);
    assert_eq!(cs(&new[0]), "/t/gamma");
    assert_eq!(obsolete.len(), 1);
    assert_eq!(cs(&obsolete[0]), "/t/alpha");

    apply_edits(&mut known, &new, &obsolete, true, true);
    assert!(!known.contains(&cv("/t/alpha")));
    assert!(known.contains(&cv("/t/beta")));
    assert!(known.contains(&cv("/t/gamma")));
    // Entries outside the scope are untouched.
    assert!(known.contains(&cv("/outside/q")));
    assert_eq!(known.len(), 3);
}

#[test]
fn discovery_without_flags_leaves_registry_unchanged() {
    let mut known = Registry::new();
    known.insert(cv("/t/alpha"));
    known.insert(cv("/t/beta"));
    let before = known.serialize();
    let scope = known.scope(&cv("/t"));
    let discovered = vec![cv("/t/beta"), cv("/t/gamma")];
    let new = new_paths(&discovered, &scope);
    let obsolete = obsolete_paths(&discovered, &scope);
    apply_edits(&mut known, &new, &obsolete, false, false);
    let after = known.serialize();
    assert_eq!(cs(&before), cs(&after));
}

#[test]
fn add_without_prune_keeps_obsolete_entries() {
    let mut known = Registry::new();
    known.insert(cv("/t/alpha"));
    let scope = known.scope(&cv("/t"));
    let discovered = vec![cv("/t/beta")];
    let new = new_paths(&discovered, &scope);
    let obsolete = obsolete_paths(&discovered, &scope);
    apply_edits(&mut known, &new, &obsolete, true, false);
    assert!(known.contains(&cv("/t/alpha")));
    assert!(known.contains(&cv("/t/beta")));
}

#[test]
fn prune_without_add_only_removes() {
    let mut known = Registry::new();
    known.insert(cv("/t/alpha"));
    let scope = known.scope(&cv("/t"));
    let discovered = vec![cv("/t/beta")];
    let new = new_paths(&discovered, &scope);
    let obsolete = obsolete_paths(&discovered, &scope);
    apply_edits(&mut known, &new, &obsolete, false, true);
    assert!(!known.contains(&cv("/t/alpha")));
    assert!(!known.contains(&cv("/t/beta")));
    assert_eq!(known.len(), 0);
}

#[test]
fn already_known_path_outside_scope_is_not_duplicated() {
    // A path discovered in-tree that the registry already holds (but that
    // the scope missed) must not be inserted twice.
    let mut known = Registry::new();
    known.insert(cv("/t/alpha"));
    let empty_scope = Registry::new();
    let discovered = vec![cv("/t/alpha")];
    let new = new_paths(&discovered, &empty_scope);
    assert_eq!(new.len(), 1);
    apply_edits(&mut known, &new, &Vec::new(), true, false);
    assert_eq!(known.len(), 1);
}
