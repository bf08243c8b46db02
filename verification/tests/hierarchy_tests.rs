use skelform_core::hierarchy::delete_bone;
use skelform_core::hierarchy::find_bone;
use skelform_core::hierarchy::find_bone_idx;
use skelform_core::hierarchy::generate_id;
use skelform_core::hierarchy::get_all_children;
use skelform_core::hierarchy::move_bone;
use skelform_core::hierarchy::new_bone;
use skelform_core::hierarchy::reparent;
use skelform_core::model::Bone;

fn ids(bones: &Vec<Bone>) -> Vec<i32> {
    let mut v: Vec<i32> = Vec::new();
    for b in bones {
        v.push(b.id);
    }
    v
}

fn parents(bones: &Vec<Bone>) -> Vec<i32> {
    let mut v: Vec<i32> = Vec::new();
    for b in bones {
        v.push(b.parent_id);
    }
    v
}

/// Every bone's descendants (per parent ids) must form a contiguous run
/// right after it: checked directly on the flat sequence.
fn assert_preorder(bones: &Vec<Bone>) {
    for i in 0..bones.len() {
        // collect descendant indices by chasing parent ids
        let mut desc = vec![false; bones.len()];
        loop {
            let mut changed = false;
            for j in 0..bones.len() {
                if !desc[j] {
                    for k in 0..bones.len() {
                        if (k == i || desc[k]) && bones[j].parent_id == bones[k].id && j != k {
                            desc[j] = true;
                            changed = true;
                        }
                    }
                }
            }
            if !changed {
                break;
            }
        }
        let count = desc.iter().filter(|d| **d).count();
        for j in 0..bones.len() {
            let in_run = j > i && j <= i + count;
            assert_eq!(desc[j], in_run, "descendants of position {} not contiguous", i);
        }
    }
}

#[test]
fn new_bones_get_counted_names_and_fresh_ids() {
    let mut bones: Vec<Bone> = Vec::new();
    new_bone(&mut bones);
    new_bone(&mut bones);
    new_bone(&mut bones);
    assert_eq!(ids(&bones), vec![0, 1, 2]);
    assert_eq!(bones[0].name, "bone0");
    assert_eq!(bones[1].name, "bone1");
    assert_eq!(bones[2].name, "bone2");
    assert_eq!(bones[0].parent_id, -1);
    assert_eq!(bones[0].scale.x, 1000);
    assert_eq!(bones[0].tex_idx, usize::MAX);
}

#[test]
fn generate_id_fills_gaps() {
    let mut bones: Vec<Bone> = Vec::new();
    new_bone(&mut bones);
    new_bone(&mut bones);
    new_bone(&mut bones);
    // remove the bone with id 1; the next id handed out must be 1
    let idx = find_bone_idx(&bones, 1);
    assert_eq!(idx, 1);
    assert!(delete_bone(&mut bones, 1));
    assert_eq!(generate_id(&bones), 1);
    new_bone(&mut bones);
    assert_eq!(ids(&bones), vec![0, 2, 1]);
}

#[test]
fn find_bone_and_index() {
    let mut bones: Vec<Bone> = Vec::new();
    new_bone(&mut bones);
    new_bone(&mut bones);
    assert_eq!(find_bone(&bones, 1).unwrap().name, "bone1");
    assert!(find_bone(&bones, 7).is_none());
    assert_eq!(find_bone_idx(&bones, 0), 0);
    assert_eq!(find_bone_idx(&bones, 7), -1);
}

#[test]
fn reparent_as_child_moves_subtree_after_anchor() {
    let mut bones: Vec<Bone> = Vec::new();
    new_bone(&mut bones); // 0
    new_bone(&mut bones); // 1
    new_bone(&mut bones); // 2
    // make bone 1 the first child of bone 0
    assert!(reparent(&mut bones, 1, 0, true).is_ok());
    assert_eq!(ids(&bones), vec![0, 1, 2]);
    assert_eq!(parents(&bones), vec![-1, 0, -1]);
    // make bone 2 the first child of bone 0: it goes before bone 1
    assert!(reparent(&mut bones, 2, 0, true).is_ok());
    assert_eq!(ids(&bones), vec![0, 2, 1]);
    assert_eq!(parents(&bones), vec![-1, 0, 0]);
    assert_preorder(&bones);
}

#[test]
fn reparent_as_sibling_moves_subtree_before_anchor() {
    let mut bones: Vec<Bone> = Vec::new();
    new_bone(&mut bones); // 0
    new_bone(&mut bones); // 1
    new_bone(&mut bones); // 2
    assert!(reparent(&mut bones, 1, 0, true).is_ok()); // 1 under 0
    // move bone 2 to be a sibling placed above bone 0
    assert!(reparent(&mut bones, 2, 0, false).is_ok());
    assert_eq!(ids(&bones), vec![2, 0, 1]);
    assert_eq!(parents(&bones), vec![-1, -1, 0]);
    assert_preorder(&bones);
}

#[test]
fn reparent_moves_whole_subtree() {
    let mut bones: Vec<Bone> = Vec::new();
    for _ in 0..4 {
        new_bone(&mut bones);
    }
    assert!(reparent(&mut bones, 1, 0, true).is_ok()); // 1 under 0
    assert!(reparent(&mut bones, 2, 1, true).is_ok()); // 2 under 1
    assert_eq!(ids(&bones), vec![0, 1, 2, 3]);
    // moving 1 under 3 carries 2 along, in order
    assert!(reparent(&mut bones, 1, 3, true).is_ok());
    assert_eq!(ids(&bones), vec![0, 3, 1, 2]);
    assert_eq!(parents(&bones), vec![-1, -1, 3, 1]);
    assert_preorder(&bones);
}

#[test]
fn cycle_rejected_leaves_hierarchy_unchanged() {
    let mut bones: Vec<Bone> = Vec::new();
    new_bone(&mut bones);
    new_bone(&mut bones);
    new_bone(&mut bones);
    assert!(reparent(&mut bones, 1, 0, true).is_ok()); // 1 under 0
    assert!(reparent(&mut bones, 2, 1, true).is_ok()); // 2 under 1
    let before_ids = ids(&bones);
    let before_parents = parents(&bones);
    // bone 0 may not become a child of its descendant 2
    assert!(reparent(&mut bones, 0, 2, true).is_err());
    assert_eq!(ids(&bones), before_ids);
    assert_eq!(parents(&bones), before_parents);
    // nor its own child
    assert!(reparent(&mut bones, 0, 0, true).is_err());
    assert_eq!(ids(&bones), before_ids);
    assert_eq!(parents(&bones), before_parents);
    assert_preorder(&bones);
}

#[test]
fn get_all_children_returns_descendant_run() {
    let mut bones: Vec<Bone> = Vec::new();
    for _ in 0..5 {
        new_bone(&mut bones);
    }
    assert!(reparent(&mut bones, 1, 0, true).is_ok());
    assert!(reparent(&mut bones, 2, 1, true).is_ok());
    assert!(reparent(&mut bones, 3, 1, false).is_ok()); // 3 sibling above 1, under 0
    // bones: 0 [3, 1 [2]], 4
    assert_eq!(ids(&bones), vec![0, 3, 1, 2, 4]);
    let root = find_bone(&bones, 0).unwrap().duplicate();
    let mut children: Vec<Bone> = Vec::new();
    get_all_children(&bones, &mut children, &root);
    assert_eq!(ids(&children), vec![3, 1, 2]);
    // children of an inner node
    let inner = find_bone(&bones, 1).unwrap().duplicate();
    let mut inner_children: Vec<Bone> = Vec::new();
    get_all_children(&bones, &mut inner_children, &inner);
    assert_eq!(ids(&inner_children), vec![2]);
}

#[test]
fn move_bone_splices_run() {
    let mut bones: Vec<Bone> = Vec::new();
    for _ in 0..3 {
        new_bone(&mut bones);
    }
    // plain reorder: move bone at index 2 above the bone at index 0
    move_bone(&mut bones, 2, 0, false);
    assert_eq!(ids(&bones), vec![2, 0, 1]);
}

#[test]
fn delete_bone_removes_subtree() {
    let mut bones: Vec<Bone> = Vec::new();
    for _ in 0..4 {
        new_bone(&mut bones);
    }
    assert!(reparent(&mut bones, 1, 0, true).is_ok());
    assert!(reparent(&mut bones, 2, 1, true).is_ok());
    // 0 [1 [2]], 3 — deleting 1 removes 2 as well
    assert!(delete_bone(&mut bones, 1));
    assert_eq!(ids(&bones), vec![0, 3]);
    assert!(!delete_bone(&mut bones, 99));
    assert_eq!(ids(&bones), vec![0, 3]);
    assert_preorder(&bones);
}

#[test]
fn preorder_held_across_an_edit_storm() {
    let mut bones: Vec<Bone> = Vec::new();
    for _ in 0..6 {
        new_bone(&mut bones);
    }
    assert!(reparent(&mut bones, 1, 0, true).is_ok());
    assert!(reparent(&mut bones, 2, 1, true).is_ok());
    assert!(reparent(&mut bones, 3, 0, true).is_ok());
    assert!(reparent(&mut bones, 4, 2, true).is_ok());
    assert_preorder(&bones);
    assert!(reparent(&mut bones, 1, 5, false).is_ok());
    assert_preorder(&bones);
    assert!(delete_bone(&mut bones, 2));
    assert_preorder(&bones);
    assert!(reparent(&mut bones, 5, 0, true).is_ok());
    assert_preorder(&bones);
}
