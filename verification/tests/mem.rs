use std::collections::HashMap;

use dabox::prelude::{DaDirectory, DaError, Entity, MemRepository, StaticEntity};

/// Builds a root named "root" with a chain of `depth` directories below
/// it, each the sole child of the previous one, and returns the
/// materialized root together with the chain.
fn tree(repo: &mut MemRepository, depth: u32) -> (DaDirectory, Vec<DaDirectory>) {
    let root = repo
        .create_directory(StaticEntity::root().uid(), "root", None)
        .unwrap();
    let mut parent_sid = root.sid;
    let mut children = vec![];
    for depth in 0..depth {
        let child = repo
            .create_directory(
                StaticEntity::root().uid(),
                &format!("child-{}", depth),
                Some(parent_sid),
            )
            .unwrap();
        parent_sid = child.sid;
        children.push(child);
    }
    (
        repo.get_directory(StaticEntity::root().uid(), root.sid)
            .unwrap(),
        children,
    )
}

#[test]
fn test_directory_creation_basic() {
    let mut repo = MemRepository::new();
    let mut known_sids = HashMap::new();
    for idx in 0..1024 {
        let name = format!("test-{}", idx);
        let dir = repo
            .create_directory(StaticEntity::root().uid(), &name, None)
            .unwrap();
        assert!(!known_sids.contains_key(&dir.sid), "sid sequence broken");
        known_sids.insert(dir.sid, name);
    }
    for (id, name) in known_sids.clone() {
        let dir = repo
            .get_directory(StaticEntity::root().uid(), id)
            .expect("unable to get created directory");
        assert_eq!(dir.name, name);
    }
    for (id, _) in known_sids {
        repo.delete_directory(StaticEntity::root().uid(), id)
            .unwrap();
    }
}

#[test]
fn test_directory_hierarchy() {
    let mut repo = MemRepository::new();
    let (root, children) = tree(&mut repo, 16);
    assert_eq!(children.last().unwrap().depth, 16);

    repo.delete_directory(StaticEntity::root().uid(), children[10].sid)
        .unwrap();
    for child in children.iter().skip(10) {
        assert!(repo
            .get_directory(StaticEntity::root().uid(), child.sid)
            .is_err());
    }
    repo.delete_directory(StaticEntity::root().uid(), children[9].sid)
        .unwrap();
    assert!(repo
        .get_directory(StaticEntity::root().uid(), children[9].sid)
        .is_err());
    repo.delete_directory(StaticEntity::root().uid(), root.sid)
        .unwrap();
    assert!(repo
        .get_directory(StaticEntity::root().uid(), root.sid)
        .is_err());
}

#[test]
fn mem_test_directory_creation_basic() {
    let mut repo = MemRepository::new();
    let mut known_sids = HashMap::new();
    for idx in 0..1024 {
        let name = format!("test-{}", idx);
        let dir = repo
            .create_directory(StaticEntity::root().uid(), &name, None)
            .unwrap();
        assert!(!known_sids.contains_key(&dir.sid), "sid sequence broken");
        known_sids.insert(dir.sid, name);
    }
    for (id, name) in known_sids.into_iter() {
        let dir = repo
            .get_directory(StaticEntity::root().uid(), id)
            .expect("unable to get created directory");
        assert_eq!(dir.name, name);
    }
}

#[test]
fn mem_test_directory_hierarchy() {
    let mut repo = MemRepository::new();
    let (_root, children) = tree(&mut repo, 128);
    assert_eq!(children.last().unwrap().depth, 128);
}

#[test]
fn child_depth_is_parent_depth_plus_one() {
    let mut repo = MemRepository::new();
    let root = repo.create_directory(7, "top", None).unwrap();
    assert_eq!(root.depth, 0);
    let child = repo
        .create_directory(7, "middle", Some(root.sid))
        .unwrap();
    assert_eq!(child.depth, 1);
    let grandchild = repo
        .create_directory(7, "bottom", Some(child.sid))
        .unwrap();
    assert_eq!(grandchild.depth, 2);
    let got = repo.get_directory(7, grandchild.sid).unwrap();
    assert_eq!(got.depth, 2);
    let got_parent = repo.get_directory(7, child.sid).unwrap();
    assert_eq!(got.depth, got_parent.depth + 1);
}

#[test]
fn created_child_listed_exactly_once() {
    let mut repo = MemRepository::new();
    let root = repo.create_directory(1, "r", None).unwrap();
    let a = repo.create_directory(1, "a", Some(root.sid)).unwrap();
    let b = repo.create_directory(1, "b", Some(root.sid)).unwrap();
    assert!(a.children.is_empty());
    let got = repo.get_directory(1, root.sid).unwrap();
    let count_a = got.children.iter().filter(|c| c.sid == a.sid).count();
    let count_b = got.children.iter().filter(|c| c.sid == b.sid).count();
    assert_eq!(count_a, 1);
    assert_eq!(count_b, 1);
    assert_eq!(got.children.len(), 2);
}

#[test]
fn delete_cascades_to_all_descendants() {
    let mut repo = MemRepository::new();
    let root = repo.create_directory(1, "r", None).unwrap();
    let mut kids = vec![];
    for i in 0..16 {
        let kid = repo
            .create_directory(1, &format!("kid-{}", i), Some(root.sid))
            .unwrap();
        assert_eq!(kid.depth, 1);
        kids.push(kid);
    }
    repo.delete_directory(1, root.sid).unwrap();
    assert_eq!(
        repo.get_directory(1, root.sid).unwrap_err(),
        DaError::DirectoryNotFound(root.sid)
    );
    for kid in kids {
        assert_eq!(
            repo.get_directory(1, kid.sid).unwrap_err(),
            DaError::DirectoryNotFound(kid.sid)
        );
    }
}

#[test]
fn delete_leaf_keeps_parent_and_siblings() {
    let mut repo = MemRepository::new();
    let root = repo.create_directory(1, "r", None).unwrap();
    let a = repo.create_directory(1, "a", Some(root.sid)).unwrap();
    let b = repo.create_directory(1, "b", Some(root.sid)).unwrap();
    repo.delete_directory(1, a.sid).unwrap();
    let got_root = repo.get_directory(1, root.sid).unwrap();
    assert_eq!(got_root.name, "r");
    assert_eq!(got_root.depth, 0);
    assert!(got_root.children.iter().all(|c| c.sid != a.sid));
    assert_eq!(got_root.children.len(), 1);
    assert_eq!(got_root.children[0].sid, b.sid);
    let got_b = repo.get_directory(1, b.sid).unwrap();
    assert_eq!(got_b.name, "b");
}

#[test]
fn chain_delete_removes_descendants_only() {
    let mut repo = MemRepository::new();
    let (root, children) = tree(&mut repo, 128);
    assert_eq!(children[127].depth, 128);
    // delete the directory at depth 10: everything below it goes with it
    repo.delete_directory(0, children[9].sid).unwrap();
    for child in children.iter().skip(9) {
        assert!(repo.get_directory(0, child.sid).is_err());
    }
    for child in children.iter().take(9) {
        assert!(repo.get_directory(0, child.sid).is_ok());
    }
    let ninth = repo.get_directory(0, children[8].sid).unwrap();
    assert!(ninth.children.is_empty());
    assert!(repo.get_directory(0, root.sid).is_ok());
}

#[test]
fn rename_changes_only_the_name() {
    let mut repo = MemRepository::new();
    let root = repo.create_directory(1, "r", None).unwrap();
    let a = repo.create_directory(1, "a", Some(root.sid)).unwrap();
    let b = repo.create_directory(1, "b", Some(root.sid)).unwrap();
    repo.rename_directory(1, a.sid, "a-renamed").unwrap();
    let got_a = repo.get_directory(1, a.sid).unwrap();
    assert_eq!(got_a.name, "a-renamed");
    assert_eq!(got_a.depth, 1);
    assert_eq!(got_a.parent_sid, Some(root.sid));
    let got_b = repo.get_directory(1, b.sid).unwrap();
    assert_eq!(got_b.name, "b");
    let got_root = repo.get_directory(1, root.sid).unwrap();
    assert_eq!(got_root.name, "r");
    assert_eq!(got_root.children.len(), 2);
}

#[test]
fn owners_never_observe_each_other() {
    let mut repo = MemRepository::new();
    let root_b = repo.create_directory(2, "shared-name", None).unwrap();
    let kid_b = repo
        .create_directory(2, "kid", Some(root_b.sid))
        .unwrap();
    // owner 1 never created these identifiers: they are invisible to it
    assert_eq!(
        repo.get_directory(1, root_b.sid).unwrap_err(),
        DaError::DirectoryNotFound(root_b.sid)
    );
    assert_eq!(
        repo.get_directory(1, kid_b.sid).unwrap_err(),
        DaError::DirectoryNotFound(kid_b.sid)
    );
    // owner 1 builds the same structure under the same names; owner 2's
    // tree stays untouched
    let root_a = repo.create_directory(1, "shared-name", None).unwrap();
    repo.rename_directory(1, root_a.sid, "mine").unwrap();
    let got_b = repo.get_directory(2, root_b.sid).unwrap();
    assert_eq!(got_b.name, "shared-name");
    assert_eq!(got_b.children.len(), 1);
}

#[test]
fn missing_targets_report_not_found() {
    let mut repo = MemRepository::new();
    let missing_sid = dabox::prelude::DaDirectorySid(12345);
    assert_eq!(
        repo.get_directory(1, missing_sid).unwrap_err(),
        DaError::DirectoryNotFound(missing_sid)
    );
    assert_eq!(
        repo.rename_directory(1, missing_sid, "x").unwrap_err(),
        DaError::DirectoryNotFound(missing_sid)
    );
    assert_eq!(
        repo.delete_directory(1, missing_sid).unwrap_err(),
        DaError::DirectoryNotFound(missing_sid)
    );
    assert_eq!(
        repo.create_directory(1, "x", Some(missing_sid)).unwrap_err(),
        DaError::DirectoryNotFound(missing_sid)
    );
}

#[test]
fn static_root_entity_has_uid_zero() {
    assert_eq!(StaticEntity::root().uid(), 0);
    assert_eq!(StaticEntity(9).uid(), 9);
}
