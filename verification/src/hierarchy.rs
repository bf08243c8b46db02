//! The bone hierarchy: a tree (forest) kept as a flat sequence in pre-order
//! depth-first order.
//!
//! Each bone names its parent by id (`-1` for a root). The load-bearing
//! invariant is [`hierarchy_wf`]: ids are distinct and non-negative, the
//! first bone is a root, and each bone follows either its parent or a bone
//! whose ancestor it shares — the stack discipline of a pre-order walk. From
//! it follows the contiguity property: every bone's descendants occupy a
//! contiguous run immediately after it ([`lemma_descendants_contiguous`]).

use vstd::prelude::*;

use crate::model::Bone;

verus! {

/// Bone `d` directly names bone `p` (at an earlier position) as its parent.
pub open spec fn parent_link(s: Seq<Bone>, d: int, p: int) -> bool {
    0 <= p < d < s.len() && s[p].id == s[d].parent_id
}

/// Bone `a` is a proper ancestor of bone `d`, through a chain of parent
/// links that (as everywhere in a well-formed hierarchy) walk to strictly
/// earlier positions.
pub open spec fn is_desc(s: Seq<Bone>, d: int, a: int) -> bool
    decreases d,
{
    &&& 0 <= a < s.len()
    &&& 0 <= d < s.len()
    &&& exists|p: int| #[trigger] parent_link(s, d, p) && (p == a || is_desc(s, p, a))
}

/// All bone ids in the sequence are distinct.
pub open spec fn ids_distinct(s: Seq<Bone>) -> bool {
    forall|i: int, j: int|
        #![trigger s[i].id, s[j].id]
        0 <= i < s.len() && 0 <= j < s.len() && i != j ==> s[i].id != s[j].id
}

/// Pre-order stack discipline at position `i`: the bone is a root, or a
/// child of its immediate predecessor, or a child of an ancestor of its
/// immediate predecessor.
pub open spec fn stack_ok_at(s: Seq<Bone>, i: int) -> bool {
    ||| s[i].parent_id == -1
    ||| s[i].parent_id == s[i - 1].id
    ||| exists|q: int| #[trigger] parent_link(s, i, q) && is_desc(s, i - 1, q)
}

/// The hierarchy invariant: a well-formed pre-order forest encoding.
pub open spec fn hierarchy_wf(s: Seq<Bone>) -> bool {
    &&& ids_distinct(s)
    &&& forall|i: int| 0 <= i < s.len() ==> (#[trigger] s[i].id) >= 0
    &&& s.len() > 0 ==> s[0].parent_id == -1
    &&& forall|i: int| 1 <= i < s.len() ==> #[trigger] stack_ok_at(s, i)
}

/// Some bone carries this id.
pub open spec fn has_id(s: Seq<Bone>, id: int) -> bool {
    exists|i: int| 0 <= i < s.len() && (#[trigger] s[i].id) == id
}

/// Index of the first bone with this id, or `-1`.
pub open spec fn id_index_from(s: Seq<Bone>, id: int, j: int) -> int
    decreases s.len() - j,
{
    if j < 0 || j >= s.len() {
        -1
    } else if s[j].id == id {
        j
    } else {
        id_index_from(s, id, j + 1)
    }
}

/// Index of the first bone with this id, or `-1`.
pub open spec fn id_index(s: Seq<Bone>, id: int) -> int {
    id_index_from(s, id, 0)
}

/// One past the last position of the contiguous descendant run of the bone
/// at `i0`: the first later position holding a non-descendant.
pub open spec fn run_end_from(s: Seq<Bone>, i0: int, j: int) -> int
    decreases s.len() - j,
{
    if j < 0 || j >= s.len() {
        s.len() as int
    } else if !is_desc(s, j, i0) {
        j
    } else {
        run_end_from(s, i0, j + 1)
    }
}

/// One past the last position of the bone-at-`i0`'s descendant run.
pub open spec fn run_end(s: Seq<Bone>, i0: int) -> int {
    run_end_from(s, i0, i0 + 1)
}

/// The positions in `(i0, e)` are exactly the descendants of the bone at
/// `i0` — its subtree is the contiguous run `[i0, e)`.
pub open spec fn subtree_run(s: Seq<Bone>, i0: int, e: int) -> bool {
    &&& 0 <= i0 < e <= s.len()
    &&& forall|j: int| i0 < j < s.len() ==> (is_desc(s, j, i0) <==> j < e)
}

/// Distinct ids make positions with equal ids equal.
pub proof fn lemma_same_id(s: Seq<Bone>, i: int, j: int)
    requires
        ids_distinct(s),
        0 <= i < s.len(),
        0 <= j < s.len(),
        s[i].id == s[j].id,
    ensures
        i == j,
{
}

/// An ancestor stands strictly earlier than its descendant.
pub proof fn lemma_desc_lower(s: Seq<Bone>, d: int, a: int)
    requires
        is_desc(s, d, a),
    ensures
        a < d,
    decreases d,
{
    let p = choose|p: int| parent_link(s, d, p) && (p == a || is_desc(s, p, a));
    if p != a {
        lemma_desc_lower(s, p, a);
    }
}

/// Ancestry is transitive.
pub proof fn lemma_desc_trans(s: Seq<Bone>, d: int, m: int, a: int)
    requires
        is_desc(s, d, m),
        is_desc(s, m, a),
    ensures
        is_desc(s, d, a),
    decreases d,
{
    let p = choose|p: int| parent_link(s, d, p) && (p == m || is_desc(s, p, m));
    if p == m {
        assert(parent_link(s, d, p) && (p == a || is_desc(s, p, a)));
    } else {
        lemma_desc_trans(s, p, m, a);
        assert(parent_link(s, d, p) && (p == a || is_desc(s, p, a)));
    }
}

/// In a well-formed hierarchy, if the bone at `k` descends from the bone at
/// `i` and they are not adjacent, the bone at `k - 1` descends from it too.
proof fn lemma_desc_step_down(s: Seq<Bone>, k: int, i: int)
    requires
        hierarchy_wf(s),
        is_desc(s, k, i),
        i < k - 1,
    ensures
        is_desc(s, k - 1, i),
{
    let p = choose|p: int| parent_link(s, k, p) && (p == i || is_desc(s, p, i));
    assert(stack_ok_at(s, k));
    assert(s[p].id >= 0);
    if s[k].parent_id == s[k - 1].id {
        lemma_same_id(s, p, k - 1);
        assert(is_desc(s, k - 1, i));
    } else {
        let q = choose|q: int| parent_link(s, k, q) && is_desc(s, k - 1, q);
        lemma_same_id(s, p, q);
        if p != i {
            lemma_desc_trans(s, k - 1, p, i);
        }
    }
}

/// Contiguity, "no gaps" form: anything between a bone and one of its
/// descendants is also its descendant.
pub proof fn lemma_no_gaps(s: Seq<Bone>, k: int, j: int, i: int)
    requires
        hierarchy_wf(s),
        is_desc(s, k, i),
        i < j < k,
    ensures
        is_desc(s, j, i),
    decreases k,
{
    lemma_desc_step_down(s, k, i);
    if j < k - 1 {
        lemma_no_gaps(s, k - 1, j, i);
    }
}

proof fn lemma_run_end_from_props(s: Seq<Bone>, i0: int, j: int)
    requires
        0 <= i0 < j <= s.len(),
        forall|k: int| i0 < k < j ==> is_desc(s, k, i0),
    ensures
        j <= run_end_from(s, i0, j) <= s.len(),
        forall|k: int| i0 < k < run_end_from(s, i0, j) ==> is_desc(s, k, i0),
        run_end_from(s, i0, j) < s.len() ==> !is_desc(s, run_end_from(s, i0, j), i0),
    decreases s.len() - j,
{
    if j < s.len() && is_desc(s, j, i0) {
        lemma_run_end_from_props(s, i0, j + 1);
    }
}

/// In a well-formed hierarchy every bone's descendants are exactly the
/// contiguous run from its own position to [`run_end`].
pub proof fn lemma_subtree_run(s: Seq<Bone>, i0: int)
    requires
        hierarchy_wf(s),
        0 <= i0 < s.len(),
    ensures
        subtree_run(s, i0, run_end(s, i0)),
        run_end(s, i0) == run_end_from(s, i0, i0 + 1),
{
    let e = run_end(s, i0);
    lemma_run_end_from_props(s, i0, i0 + 1);
    assert forall|j: int| i0 < j < s.len() implies (is_desc(s, j, i0) <==> j < e) by {
        if j < e {
            assert(is_desc(s, j, i0));
        } else if is_desc(s, j, i0) {
            if e < j {
                lemma_no_gaps(s, j, e, i0);
            }
            assert(false);
        }
    }
}

/// The statement of the pre-order invariant: in a well-formed hierarchy,
/// every bone's descendants form a contiguous run starting immediately
/// after it — descendants come later, there are no gaps among them, and if
/// the bone has any descendant then its immediate successor is one.
pub proof fn lemma_descendants_contiguous(s: Seq<Bone>)
    requires
        hierarchy_wf(s),
    ensures
        forall|i: int, j: int| #[trigger] is_desc(s, j, i) ==> i < j,
        forall|i: int, j: int, k: int|
            #![trigger is_desc(s, k, i), is_desc(s, j, i)]
            is_desc(s, k, i) && i < j < k ==> is_desc(s, j, i),
        forall|i: int, k: int| #[trigger] is_desc(s, k, i) && i + 1 < k ==> is_desc(s, i + 1, i),
{
    assert forall|i: int, j: int| #[trigger] is_desc(s, j, i) implies i < j by {
        lemma_desc_lower(s, j, i);
    }
    assert forall|i: int, j: int, k: int|
        #![trigger is_desc(s, k, i), is_desc(s, j, i)]
        is_desc(s, k, i) && i < j < k implies is_desc(s, j, i) by {
        lemma_no_gaps(s, k, j, i);
    }
    assert forall|i: int, k: int|
        #[trigger] is_desc(s, k, i) && i + 1 < k implies is_desc(s, i + 1, i) by {
        lemma_desc_lower(s, k, i);
        lemma_no_gaps(s, k, i + 1, i);
    }
}

} // verus!

verus! {

/// Any parent witness of a run member (other than the root) stays in the run.
pub proof fn lemma_member_parent_in_run(s: Seq<Bone>, i0: int, e: int, j: int, p: int)
    requires
        ids_distinct(s),
        subtree_run(s, i0, e),
        i0 < j < e,
        parent_link(s, j, p),
    ensures
        i0 <= p < j,
        p == i0 || is_desc(s, p, i0),
{
    assert(is_desc(s, j, i0));
    let pw = choose|pw: int| parent_link(s, j, pw) && (pw == i0 || is_desc(s, pw, i0));
    lemma_same_id(s, p, pw);
    if pw != i0 {
        lemma_desc_lower(s, pw, i0);
    }
}

/// Any parent witness of a bone outside the run stays outside the run.
pub proof fn lemma_outside_parent_outside(s: Seq<Bone>, i0: int, e: int, j: int, p: int)
    requires
        ids_distinct(s),
        subtree_run(s, i0, e),
        0 <= j < s.len(),
        !(i0 <= j < e),
        parent_link(s, j, p),
    ensures
        !(i0 <= p < e),
{
    if i0 <= p < e {
        if p != i0 {
            assert(is_desc(s, p, i0));
        }
        assert(parent_link(s, j, p) && (p == i0 || is_desc(s, p, i0)));
        assert(is_desc(s, j, i0));
        lemma_desc_lower(s, j, i0);
    }
}

/// Transfer of an ancestor chain from `s` into `t` along an order-preserving
/// embedding `f` of a witness-closed index set `dom`. The chain's endpoints'
/// ids and the chain's interior parent references must be preserved; the
/// ancestor's own parent reference (at `a`) may differ.
pub proof fn lemma_desc_embed(
    s: Seq<Bone>,
    t: Seq<Bone>,
    dom: Set<int>,
    f: spec_fn(int) -> int,
    d: int,
    a: int,
)
    requires
        is_desc(s, d, a),
        dom.contains(d),
        dom.contains(a),
        forall|j: int, p: int|
            #![trigger dom.contains(j), parent_link(s, j, p)]
            dom.contains(j) && parent_link(s, j, p) && (p == a || is_desc(s, p, a))
                ==> dom.contains(p),
        forall|i: int| #[trigger] dom.contains(i) ==> 0 <= i < s.len() && 0 <= f(i) < t.len(),
        forall|i: int| #[trigger] dom.contains(i) ==> t[f(i)].id == s[i].id,
        forall|i: int| #[trigger] dom.contains(i) && i > a ==> t[f(i)].parent_id == s[i].parent_id,
        forall|i: int, j: int|
            #![trigger dom.contains(i), dom.contains(j), f(i), f(j)]
            dom.contains(i) && dom.contains(j) && i < j ==> f(i) < f(j),
    ensures
        is_desc(t, f(d), f(a)),
    decreases d,
{
    let p = choose|p: int| parent_link(s, d, p) && (p == a || is_desc(s, p, a));
    assert(dom.contains(p));
    lemma_desc_lower(s, d, a);
    if p == a {
        assert(parent_link(t, f(d), f(p)));
        assert(parent_link(t, f(d), f(p)) && (f(p) == f(a) || is_desc(t, f(p), f(a))));
    } else {
        lemma_desc_embed(s, t, dom, f, p, a);
        assert(parent_link(t, f(d), f(p)));
        assert(parent_link(t, f(d), f(p)) && (f(p) == f(a) || is_desc(t, f(p), f(a))));
    }
}

} // verus!

verus! {

/// The sequence with the run `[i0, e)` removed.
pub open spec fn remove_run(s: Seq<Bone>, i0: int, e: int) -> Seq<Bone> {
    s.subrange(0, i0) + s.subrange(e, s.len() as int)
}

/// Where a position outside the removed run `[i0, e)` lands after removal.
pub open spec fn rm_pos(i0: int, e: int, i: int) -> int {
    if i < i0 {
        i
    } else {
        i - (e - i0)
    }
}

/// An ancestor chain leaving the run `[i0, e)` downward passes through the
/// run's root.
pub proof fn lemma_exit_through_root(s: Seq<Bone>, i0: int, e: int, j: int, q: int)
    requires
        ids_distinct(s),
        subtree_run(s, i0, e),
        i0 < j < e,
        is_desc(s, j, q),
        q < i0,
    ensures
        is_desc(s, i0, q),
    decreases j,
{
    let p = choose|p: int| parent_link(s, j, p) && (p == q || is_desc(s, p, q));
    lemma_member_parent_in_run(s, i0, e, j, p);
    assert(is_desc(s, p, q));
    if p != i0 {
        lemma_exit_through_root(s, i0, e, p, q);
    }
}

/// Ancestry among survivors transfers across removal of a complete run.
pub proof fn lemma_desc_remove(s: Seq<Bone>, i0: int, e: int, d: int, a: int)
    requires
        ids_distinct(s),
        subtree_run(s, i0, e),
        0 <= d < s.len(),
        0 <= a < s.len(),
        !(i0 <= d < e),
        !(i0 <= a < e),
        is_desc(s, d, a),
    ensures
        is_desc(remove_run(s, i0, e), rm_pos(i0, e, d), rm_pos(i0, e, a)),
{
    let t = remove_run(s, i0, e);
    let dom = Set::new(|i: int| 0 <= i < s.len() && !(i0 <= i < e));
    let f = (|i: int| rm_pos(i0, e, i));
    assert forall|j: int, p: int|
        #![trigger dom.contains(j), parent_link(s, j, p)]
        dom.contains(j) && parent_link(s, j, p) && (p == a || is_desc(s, p, a))
            implies dom.contains(p) by {
        lemma_outside_parent_outside(s, i0, e, j, p);
    }
    assert forall|i: int| #[trigger] dom.contains(i) implies 0 <= i < s.len() && 0 <= f(i)
        < t.len() && t[f(i)] == s[i] by {
        if i >= i0 {
            assert(t[f(i)] == s.subrange(e, s.len() as int)[i - e]);
        }
    }
    lemma_desc_embed(s, t, dom, f, d, a);
}

/// Removing a complete subtree run keeps the hierarchy well-formed.
pub proof fn lemma_remove_run_wf(s: Seq<Bone>, i0: int, e: int)
    requires
        hierarchy_wf(s),
        subtree_run(s, i0, e),
    ensures
        hierarchy_wf(remove_run(s, i0, e)),
{
    let t = remove_run(s, i0, e);
    let l = e - i0;
    assert forall|x: int| 0 <= x < t.len() implies t[x] == s[if x < i0 {
        x
    } else {
        x + l
    }] by {
        if x >= i0 {
            assert(t[x] == s.subrange(e, s.len() as int)[x - i0]);
        }
    }
    // the run's follower (if any) cannot be a child of anything in the run
    assert forall|p: int| e < s.len() && parent_link(s, e, p) implies !(i0 <= p < e) by {
        lemma_outside_parent_outside(s, i0, e, e, p);
    }
    if e < s.len() && s[e].parent_id != -1 {
        // s[e] is not a child of s[e - 1], which sits inside the run
        if s[e].parent_id == s[e - 1].id {
            assert(parent_link(s, e, e - 1));
            assert(e - 1 == i0 || is_desc(s, e - 1, i0));
            assert(parent_link(s, e, e - 1) && (e - 1 == i0 || is_desc(s, e - 1, i0)));
            assert(is_desc(s, e, i0));
            assert(false);
        }
    }
    // distinct, non-negative ids
    assert(ids_distinct(t));
    assert(forall|x: int| 0 <= x < t.len() ==> (#[trigger] t[x].id) >= 0);
    // the first survivor is a root
    if t.len() > 0 {
        if i0 == 0 {
            assert(stack_ok_at(s, e));
            if s[e].parent_id != -1 {
                let q = choose|q: int| parent_link(s, e, q) && is_desc(s, e - 1, q);
                assert(false);
            }
            assert(t[0].parent_id == -1);
        } else {
            assert(t[0] == s[0]);
        }
    }
    // stack discipline at every later survivor
    assert forall|x: int| 1 <= x < t.len() implies stack_ok_at(t, x) by {
        if x < i0 {
            // untouched prefix pair
            assert(stack_ok_at(s, x));
            if s[x].parent_id != -1 && s[x].parent_id != s[x - 1].id {
                let q = choose|q: int| parent_link(s, x, q) && is_desc(s, x - 1, q);
                lemma_outside_parent_outside(s, i0, e, x, q);
                lemma_desc_remove(s, i0, e, x - 1, q);
                assert(parent_link(t, x, rm_pos(i0, e, q)));
                assert(parent_link(t, x, rm_pos(i0, e, q)) && is_desc(t, x - 1, rm_pos(i0, e, q)));
            }
        } else if x > i0 {
            // untouched suffix pair
            let i = x + l;
            assert(stack_ok_at(s, i));
            assert(t[x] == s[i]);
            assert(t[x - 1] == s[i - 1]);
            if s[i].parent_id != -1 && s[i].parent_id != s[i - 1].id {
                let q = choose|q: int| parent_link(s, i, q) && is_desc(s, i - 1, q);
                lemma_outside_parent_outside(s, i0, e, i, q);
                lemma_desc_lower(s, i - 1, q);
                lemma_desc_remove(s, i0, e, i - 1, q);
                assert(parent_link(t, x, rm_pos(i0, e, q)));
                assert(parent_link(t, x, rm_pos(i0, e, q)) && is_desc(
                    t,
                    x - 1,
                    rm_pos(i0, e, q),
                ));
            }
        } else {
            // the seam: the run's follower now follows the run's old
            // predecessor
            let i = e;
            assert(t[x] == s[e]);
            assert(t[x - 1] == s[i0 - 1]);
            assert(stack_ok_at(s, e));
            if s[e].parent_id != -1 {
                let q = choose|q: int| parent_link(s, e, q) && is_desc(s, e - 1, q);
                assert(q < i0);
                // q is a proper ancestor of the run's root
                if e - 1 > i0 {
                    lemma_exit_through_root(s, i0, e, e - 1, q);
                }
                assert(is_desc(s, i0, q));
                // relate q to the run's old predecessor via the root's own
                // stack discipline
                let p1 = choose|p1: int| parent_link(s, i0, p1) && (p1 == q || is_desc(s, p1, q));
                assert(stack_ok_at(s, i0));
                assert(s[p1].id >= 0);
                if s[i0].parent_id == s[i0 - 1].id {
                    lemma_same_id(s, p1, i0 - 1);
                    if p1 == q {
                        assert(t[x].parent_id == t[x - 1].id);
                    } else {
                        lemma_desc_remove(s, i0, e, i0 - 1, q);
                        assert(parent_link(t, x, q));
                        assert(parent_link(t, x, q) && is_desc(t, x - 1, q));
                    }
                } else {
                    let q2 = choose|q2: int| parent_link(s, i0, q2) && is_desc(s, i0 - 1, q2);
                    lemma_same_id(s, p1, q2);
                    if p1 != q {
                        lemma_desc_trans(s, i0 - 1, p1, q);
                    }
                    lemma_desc_remove(s, i0, e, i0 - 1, q);
                    assert(parent_link(t, x, q));
                    assert(parent_link(t, x, q) && is_desc(t, x - 1, q));
                }
            }
        }
    }
}

} // verus!

verus! {

/// `b` with its parent reference replaced.
pub open spec fn with_parent(b: Bone, pid: i32) -> Bone {
    Bone {
        id: b.id,
        name: b.name,
        parent_id: pid,
        pos: b.pos,
        scale: b.scale,
        pivot: b.pivot,
        rot: b.rot,
        zindex: b.zindex,
        tex_idx: b.tex_idx,
    }
}

/// The run `[i0, e)` as a block of its own, its root re-pointed at `np`.
pub open spec fn moved_block(s: Seq<Bone>, i0: int, e: int, np: i32) -> Seq<Bone> {
    s.subrange(i0, e).update(0, with_parent(s[i0], np))
}

/// A block with its root made a root bone.
pub open spec fn root_neutral(b: Seq<Bone>) -> Seq<Bone> {
    b.update(0, with_parent(b[0], -1i32))
}

/// `s1` with the block `b` inserted at position `p`.
pub open spec fn insert_block(s1: Seq<Bone>, b: Seq<Bone>, p: int) -> Seq<Bone> {
    s1.subrange(0, p) + b + s1.subrange(p, s1.len() as int)
}

/// A complete subtree run, cut out and made a rootless block, is itself a
/// well-formed hierarchy, and every non-root element descends from the root.
pub proof fn lemma_extract_standalone(s: Seq<Bone>, i0: int, e: int)
    requires
        hierarchy_wf(s),
        subtree_run(s, i0, e),
    ensures
        hierarchy_wf(root_neutral(s.subrange(i0, e))),
        forall|k: int| 1 <= k < e - i0 ==> is_desc(root_neutral(s.subrange(i0, e)), k, 0),
{
    let bn = root_neutral(s.subrange(i0, e));
    let l = e - i0;
    assert(bn.len() == l);
    assert(forall|k: int| 1 <= k < l ==> bn[k] == s[i0 + k]);
    assert(bn[0].id == s[i0].id);
    assert(bn[0].parent_id == -1);
    let dom = Set::new(|i: int| i0 <= i < e);
    let f = (|i: int| i - i0);
    assert forall|j: int, p: int|
        #![trigger dom.contains(j), parent_link(s, j, p)]
        dom.contains(j) && parent_link(s, j, p) && (p == i0 || is_desc(s, p, i0))
            implies dom.contains(p) by {
        if p != i0 {
            lemma_desc_lower(s, p, i0);
        }
    }
    assert forall|x: int| 1 <= x < l implies is_desc(bn, x, 0) by {
        assert(is_desc(s, i0 + x, i0));
        lemma_desc_embed(s, bn, dom, f, i0 + x, i0);
    }
    assert forall|x: int| 1 <= x < l implies stack_ok_at(bn, x) by {
        let i = i0 + x;
        assert(stack_ok_at(s, i));
        if bn[x].parent_id != -1 && bn[x].parent_id != bn[x - 1].id {
            let q = choose|q: int| parent_link(s, i, q) && is_desc(s, i - 1, q);
            lemma_member_parent_in_run(s, i0, e, i, q);
            assert forall|j: int, p: int|
                #![trigger dom.contains(j), parent_link(s, j, p)]
                dom.contains(j) && parent_link(s, j, p) && (p == q || is_desc(s, p, q))
                    implies dom.contains(p) by {
                if i0 < j < e {
                    lemma_member_parent_in_run(s, i0, e, j, p);
                } else if p != q {
                    lemma_desc_lower(s, p, q);
                }
            }
            lemma_desc_embed(s, bn, dom, f, i - 1, q);
            assert(bn[f(q)].id == s[q].id);
            assert(parent_link(bn, x, f(q)));
            assert(parent_link(bn, x, f(q)) && is_desc(bn, x - 1, f(q)));
        }
    }
    assert(ids_distinct(bn));
    assert(forall|x: int| 0 <= x < l ==> (#[trigger] bn[x].id) >= 0);
}

} // verus!

verus! {

/// Where a position of the receiving sequence lands after a block of length
/// `l` is inserted at `p`.
pub open spec fn ins_pos(p: int, l: int, i: int) -> int {
    if i < p {
        i
    } else {
        i + l
    }
}

/// Ancestry in the receiving sequence transfers across a block insertion.
proof fn lemma_desc_insert(s1: Seq<Bone>, b: Seq<Bone>, p: int, d: int, a: int)
    requires
        0 <= p <= s1.len(),
        is_desc(s1, d, a),
    ensures
        is_desc(insert_block(s1, b, p), ins_pos(p, b.len() as int, d), ins_pos(p, b.len() as int, a)),
{
    let t = insert_block(s1, b, p);
    let l = b.len() as int;
    let dom = Set::new(|i: int| 0 <= i < s1.len());
    let f = (|i: int| ins_pos(p, l, i));
    assert forall|i: int| #[trigger] dom.contains(i) implies 0 <= i < s1.len() && 0 <= f(i)
        < t.len() && t[f(i)] == s1[i] by {
        if i >= p {
            assert(t[i + l] == s1.subrange(p, s1.len() as int)[i - p]);
        }
    }
    lemma_desc_embed(s1, t, dom, f, d, a);
}

/// Ancestry inside the (rootless form of the) block transfers into the
/// combined sequence.
proof fn lemma_desc_block(s1: Seq<Bone>, b: Seq<Bone>, p: int, d: int, a: int)
    requires
        0 <= p <= s1.len(),
        b.len() >= 1,
        is_desc(root_neutral(b), d, a),
    ensures
        is_desc(insert_block(s1, b, p), p + d, p + a),
{
    let t = insert_block(s1, b, p);
    let bn = root_neutral(b);
    let l = b.len() as int;
    let dom = Set::new(|i: int| 0 <= i < l);
    let f = (|i: int| p + i);
    assert forall|i: int| #[trigger] dom.contains(i) implies 0 <= i < bn.len() && 0 <= f(i)
        < t.len() && t[f(i)].id == bn[i].id && (i >= 1 ==> t[f(i)].parent_id
        == bn[i].parent_id) by {
        assert(t[p + i] == b[i]);
    }
    lemma_desc_embed(bn, t, dom, f, d, a);
}

/// The bone at `p` (about to be displaced by a block whose root's parent is
/// `rp`) has its parent among the positions before `p`, reached from the
/// position carrying id `rp`.
pub open spec fn seam_witness(s1: Seq<Bone>, p: int, rp: i32) -> bool {
    exists|q: int, qq: int|
        #![trigger s1[q].id, s1[qq].id]
        0 <= q < p && 0 <= qq < p && s1[q].id == s1[p].parent_id && s1[qq].id == rp && (qq == q
            || is_desc(s1, qq, q))
}

/// Inserting a self-contained subtree block whose root attaches cleanly at
/// the insertion point keeps the hierarchy well-formed.
pub proof fn lemma_insert_subtree_wf(s1: Seq<Bone>, b: Seq<Bone>, p: int)
    requires
        hierarchy_wf(s1),
        b.len() >= 1,
        hierarchy_wf(root_neutral(b)),
        forall|k: int| 1 <= k < b.len() ==> is_desc(root_neutral(b), k, 0),
        forall|i: int, j: int|
            #![trigger s1[i].id, b[j].id]
            0 <= i < s1.len() && 0 <= j < b.len() ==> s1[i].id != b[j].id,
        0 <= p <= s1.len(),
        p == 0 ==> b[0].parent_id == -1,
        p > 0 ==> (b[0].parent_id == -1 || b[0].parent_id == s1[p - 1].id || exists|q: int|
            0 <= q < p && (#[trigger] s1[q].id) == b[0].parent_id && is_desc(s1, p - 1, q)),
        p < s1.len() ==> (s1[p].parent_id == -1 || s1[p].parent_id == b[0].parent_id
            || seam_witness(s1, p, b[0].parent_id)),
    ensures
        hierarchy_wf(insert_block(s1, b, p)),
{
    let t = insert_block(s1, b, p);
    let bn = root_neutral(b);
    let l = b.len() as int;
    let rp = b[0].parent_id;
    assert(t.len() == s1.len() + l);
    assert forall|x: int| 0 <= x < t.len() implies t[x] == (if x < p {
        s1[x]
    } else if x < p + l {
        b[x - p]
    } else {
        s1[x - l]
    }) by {
        if x >= p + l {
            assert(t[x] == s1.subrange(p, s1.len() as int)[x - p - l]);
        }
    }
    assert(forall|k: int| 0 <= k < l ==> b[k].id == bn[k].id);
    assert(forall|k: int| 1 <= k < l ==> b[k] == bn[k]);
    // ids distinct and non-negative
    assert forall|x: int, y: int|
        #![trigger t[x].id, t[y].id]
        0 <= x < t.len() && 0 <= y < t.len() && x != y implies t[x].id != t[y].id by {}
    assert(ids_distinct(t));
    assert(forall|x: int| 0 <= x < t.len() ==> (#[trigger] t[x].id) >= 0);
    // the first bone is a root
    if p == 0 {
        assert(t[0].parent_id == -1);
    } else {
        assert(t[0] == s1[0]);
    }
    // stack discipline everywhere
    assert forall|x: int| 1 <= x < t.len() implies stack_ok_at(t, x) by {
        if x < p {
            assert(stack_ok_at(s1, x));
            if s1[x].parent_id != -1 && s1[x].parent_id != s1[x - 1].id {
                let q = choose|q: int| parent_link(s1, x, q) && is_desc(s1, x - 1, q);
                lemma_desc_insert(s1, b, p, x - 1, q);
                assert(parent_link(t, x, q));
                assert(parent_link(t, x, q) && is_desc(t, x - 1, q));
            }
        } else if x == p {
            // the block root follows the bone before the insertion point
            if rp != -1 && rp != s1[p - 1].id {
                let q = choose|q: int|
                    0 <= q < p && (#[trigger] s1[q].id) == rp && is_desc(s1, p - 1, q);
                lemma_desc_insert(s1, b, p, p - 1, q);
                assert(parent_link(t, x, q));
                assert(parent_link(t, x, q) && is_desc(t, x - 1, q));
            }
        } else if x < p + l {
            // inside the block
            let k = x - p;
            assert(stack_ok_at(bn, k));
            if bn[k].parent_id != -1 && bn[k].parent_id != bn[k - 1].id {
                let qb = choose|qb: int| parent_link(bn, k, qb) && is_desc(bn, k - 1, qb);
                lemma_desc_block(s1, b, p, k - 1, qb);
                assert(t[p + qb].id == bn[qb].id);
                assert(parent_link(t, x, p + qb));
                assert(parent_link(t, x, p + qb) && is_desc(t, x - 1, p + qb));
            }
        } else if x == p + l {
            // the bone after the insertion point now follows the block's
            // last element, a descendant (or self) of the block root
            let w = s1[p];
            assert(t[x] == w);
            if w.parent_id != -1 {
                if w.parent_id == rp {
                    // the root's own attachment gives the needed ancestor
                    assert(rp != -1);
                    let qq = choose|qq: int| 0 <= qq < p && (#[trigger] s1[qq].id) == rp;
                    assert(parent_link(t, p, qq));
                    assert(parent_link(t, p, qq) && (qq == qq || is_desc(t, qq, qq)));
                    assert(is_desc(t, p, qq));
                    if l > 1 {
                        lemma_desc_block(s1, b, p, l - 1, 0);
                        lemma_desc_trans(t, p + l - 1, p, qq);
                    }
                    assert(parent_link(t, x, qq));
                    assert(parent_link(t, x, qq) && is_desc(t, x - 1, qq));
                } else {
                    assert(seam_witness(s1, p, rp));
                    let (q, qq) = choose|q: int, qq: int|
                        #![trigger s1[q].id, s1[qq].id]
                        0 <= q < p && 0 <= qq < p && s1[q].id == s1[p].parent_id && s1[qq].id
                            == rp && (qq == q || is_desc(s1, qq, q));
                    assert(rp != -1);
                    assert(parent_link(t, p, qq));
                    assert(parent_link(t, p, qq) && (qq == qq || is_desc(t, qq, qq)));
                    assert(is_desc(t, p, qq));
                    if qq != q {
                        assert(is_desc(s1, qq, q));
                        lemma_desc_insert(s1, b, p, qq, q);
                        lemma_desc_trans(t, p, qq, q);
                    }
                    assert(is_desc(t, p, q));
                    if l > 1 {
                        lemma_desc_block(s1, b, p, l - 1, 0);
                        lemma_desc_trans(t, p + l - 1, p, q);
                    }
                    assert(parent_link(t, x, q));
                    assert(parent_link(t, x, q) && is_desc(t, x - 1, q));
                }
            }
        } else {
            // untouched pairs after the block
            let i = x - l;
            assert(stack_ok_at(s1, i));
            assert(t[x] == s1[i]);
            assert(t[x - 1] == s1[i - 1]);
            if s1[i].parent_id != -1 && s1[i].parent_id != s1[i - 1].id {
                let q = choose|q: int| parent_link(s1, i, q) && is_desc(s1, i - 1, q);
                lemma_desc_insert(s1, b, p, i - 1, q);
                assert(parent_link(t, x, ins_pos(p, l, q)));
                assert(parent_link(t, x, ins_pos(p, l, q)) && is_desc(t, x - 1, ins_pos(p, l, q)));
            }
        }
    }
}

} // verus!

verus! {

/// What [`id_index_from`] finds: the first hit at or after `j`, if any.
pub proof fn lemma_id_index_from_props(s: Seq<Bone>, id: int, j: int)
    requires
        0 <= j <= s.len(),
    ensures
        id_index_from(s, id, j) == -1 ==> forall|k: int|
            j <= k < s.len() ==> (#[trigger] s[k].id) != id,
        id_index_from(s, id, j) != -1 ==> j <= id_index_from(s, id, j) < s.len() && s[id_index_from(
            s,
            id,
            j,
        )].id == id && forall|k: int| j <= k < id_index_from(s, id, j) ==> (#[trigger] s[k].id) != id,
    decreases s.len() - j,
{
    if j < s.len() && s[j].id != id {
        lemma_id_index_from_props(s, id, j + 1);
    }
}

/// What [`id_index`] finds, and that it finds something exactly when the id
/// is present.
pub proof fn lemma_id_index_props(s: Seq<Bone>, id: int)
    ensures
        id_index(s, id) == -1 <==> !has_id(s, id),
        id_index(s, id) != -1 ==> 0 <= id_index(s, id) < s.len() && s[id_index(s, id)].id == id
            && forall|k: int| 0 <= k < id_index(s, id) ==> (#[trigger] s[k].id) != id,
{
    lemma_id_index_from_props(s, id, 0);
}

/// Find the first bone with the given id.
pub fn find_bone<'a>(bones: &'a Vec<Bone>, id: i32) -> (r: Option<&'a Bone>)
    ensures
        (r is Some) <==> has_id(bones@, id as int),
        r matches Some(b) ==> id_index(bones@, id as int) >= 0 && *b == bones@[id_index(
            bones@,
            id as int,
        )],
{
    proof {
        lemma_id_index_props(bones@, id as int);
    }
    let ghost s = bones@;
    let mut i: usize = 0;
    while i < bones.len()
        invariant
            0 <= i <= s.len(),
            s == bones@,
            forall|k: int| 0 <= k < i ==> (#[trigger] s[k].id) != id,
        decreases s.len() - i,
    {
        if bones[i].id == id {
            proof {
                lemma_id_index_from_props(s, id as int, 0);
                assert(id_index(s, id as int) == i as int) by {
                    lemma_id_index_from_props(s, id as int, 0);
                    if id_index(s, id as int) == -1 {
                        assert(s[i as int].id != id);
                    }
                }
            }
            return Some(&bones[i]);
        }
        i = i + 1;
    }
    None
}

/// Find the position of the first bone with the given id, or `-1`.
pub fn find_bone_idx(bones: &Vec<Bone>, id: i32) -> (idx: i32)
    requires
        bones@.len() <= i32::MAX as int,
    ensures
        idx == id_index(bones@, id as int),
{
    proof {
        lemma_id_index_props(bones@, id as int);
    }
    let ghost s = bones@;
    let mut i: usize = 0;
    while i < bones.len()
        invariant
            0 <= i <= s.len(),
            s == bones@,
            s.len() <= i32::MAX as int,
            forall|k: int| 0 <= k < i ==> (#[trigger] s[k].id) != id,
        decreases s.len() - i,
    {
        if bones[i].id == id {
            proof {
                lemma_id_index_from_props(s, id as int, 0);
                if id_index(s, id as int) == -1 {
                    assert(s[i as int].id != id);
                }
            }
            return i as i32;
        }
        i = i + 1;
    }
    -1
}

/// Whether any bone carries this id.
fn id_exists(bones: &Vec<Bone>, id: i32) -> (r: bool)
    ensures
        r == has_id(bones@, id as int),
{
    let mut i: usize = 0;
    while i < bones.len()
        invariant
            0 <= i <= bones@.len(),
            forall|k: int| 0 <= k < i ==> (#[trigger] bones@[k].id) != id,
        decreases bones@.len() - i,
    {
        if bones[i].id == id {
            return true;
        }
        i = i + 1;
    }
    false
}

/// With distinct ids, if every value in `[0, n)` occurs as an id, there are
/// at least `n` bones.
proof fn lemma_id_pigeonhole(s: Seq<Bone>, n: int)
    requires
        ids_distinct(s),
        n >= 0,
        forall|k: int| 0 <= k < n ==> has_id(s, k),
    ensures
        n <= s.len(),
{
    let f = (|k: int| choose|i: int| 0 <= i < s.len() && (#[trigger] s[i].id) == k);
    let ks = vstd::set_lib::set_int_range(0, n);
    let pos = ks.map(f);
    vstd::set_lib::lemma_int_range(0, n);
    assert forall|k: int| ks.contains(k) implies 0 <= f(k) < s.len() && s[f(k)].id == k by {
        assert(has_id(s, k));
    }
    assert(vstd::relations::injective_on(f, ks)) by {
        assert forall|k1: int, k2: int|
            #![trigger ks.contains(k1), ks.contains(k2), f(k1), f(k2)]
            ks.contains(k1) && ks.contains(k2) && f(k1) == f(k2) implies k1 == k2 by {
            assert(has_id(s, k1));
            assert(has_id(s, k2));
            assert(s[f(k1)].id == k1);
            assert(s[f(k2)].id == k2);
        }
    }
    vstd::set_lib::lemma_map_size(ks, pos, f);
    let all = vstd::set_lib::set_int_range(0, s.len() as int);
    vstd::set_lib::lemma_int_range(0, s.len() as int);
    assert forall|x: int| pos.contains(x) implies all.contains(x) by {
        let k = choose|k: int| ks.contains(k) && f(k) == x;
        assert(has_id(s, k));
    }
    vstd::set_lib::lemma_len_subset(pos, all);
}

/// The smallest non-negative id not yet in use: scan upward from zero.
pub fn generate_id(bones: &Vec<Bone>) -> (id: i32)
    requires
        ids_distinct(bones@),
        bones@.len() < i32::MAX as int,
    ensures
        id >= 0,
        !has_id(bones@, id as int),
        forall|k: int| 0 <= k < id ==> has_id(bones@, k),
{
    let mut idx: i32 = 0;
    loop
        invariant
            ids_distinct(bones@),
            bones@.len() < i32::MAX as int,
            0 <= idx <= bones@.len(),
            forall|k: int| 0 <= k < idx ==> has_id(bones@, k),
        decreases bones@.len() - idx,
    {
        if !id_exists(bones, idx) {
            return idx;
        }
        proof {
            lemma_id_pigeonhole(bones@, idx + 1);
        }
        idx = idx + 1;
    }
}

} // verus!

verus! {

/// Append a fresh root bone with the smallest unused id, named after the
/// count of bones so far, carrying bind-pose defaults.
pub fn new_bone(bones: &mut Vec<Bone>)
    requires
        hierarchy_wf(old(bones)@),
        old(bones)@.len() < i32::MAX as int,
    ensures
        hierarchy_wf(final(bones)@),
        final(bones)@.len() == old(bones)@.len() + 1,
        final(bones)@.subrange(0, old(bones)@.len() as int) == old(bones)@,
        ({
            let b = final(bones)@.last();
            &&& b.parent_id == -1
            &&& b.id >= 0
            &&& !has_id(old(bones)@, b.id as int)
            &&& (forall|k: int| 0 <= k < b.id ==> has_id(old(bones)@, k))
            &&& b.name@ == "bone"@ + crate::model::decimal_digits(old(bones)@.len() as int)
            &&& b.pos == (crate::model::Vec2 { x: 0, y: 0 })
            &&& b.scale == (crate::model::Vec2 {
                x: crate::model::SCALE_ONE,
                y: crate::model::SCALE_ONE,
            })
            &&& b.pivot == (crate::model::Vec2 { x: 0, y: 0 })
            &&& b.rot == 0
            &&& b.zindex == 0
            &&& b.tex_idx == usize::MAX
        }),
{
    let ghost s = bones@;
    let id = generate_id(bones);
    let name = crate::model::bone_name(bones.len() as u64);
    let b = Bone::with_defaults(id, name);
    proof {
        let bs = seq![b];
        assert(root_neutral(bs) =~= bs);
        assert(forall|i: int| 0 <= i < bs.len() ==> (#[trigger] bs[i].id) >= 0);
        assert(hierarchy_wf(root_neutral(bs)));
        assert forall|i: int, j: int|
            #![trigger s[i].id, bs[j].id]
            0 <= i < s.len() && 0 <= j < bs.len() implies s[i].id != bs[j].id by {}
        lemma_insert_subtree_wf(s, bs, s.len() as int);
        assert(insert_block(s, bs, s.len() as int) =~= s.push(b));
    }
    bones.push(b);
    proof {
        assert(bones@ =~= s.push(b));
        assert(bones@.subrange(0, s.len() as int) =~= s);
    }
}

/// Walk forward from `i0` to the end of its contiguous descendant run.
fn run_end_exec(bones: &Vec<Bone>, i0: usize) -> (e: usize)
    requires
        i0 < bones@.len(),
        subtree_run(bones@, i0 as int, run_end(bones@, i0 as int)),
    ensures
        e == run_end(bones@, i0 as int),
        i0 < e <= bones@.len(),
{
    let ghost s = bones@;
    let ghost re = run_end(s, i0 as int);
    let n = bones.len();
    let mut e: usize = i0 + 1;
    while e < n
        invariant
            s == bones@,
            n == s.len(),
            i0 < e <= s.len(),
            re == run_end(s, i0 as int),
            subtree_run(s, i0 as int, re),
            forall|j: int| i0 < j < e ==> is_desc(s, j, i0 as int),
            e <= re,
        decreases s.len() - e,
    {
        let pid = bones[e].parent_id;
        let mut found = false;
        let mut t: usize = i0;
        while t < e && !found
            invariant
                s == bones@,
                i0 <= t <= e < s.len(),
                found ==> exists|q: int| i0 <= q < e && (#[trigger] s[q].id) == pid,
                !found ==> forall|q: int| i0 <= q < t ==> (#[trigger] s[q].id) != pid,
            decreases e - t + (if found { 0int } else { 1int }),
        {
            if bones[t].id == pid {
                found = true;
                proof {
                    assert(s[t as int].id == pid);
                }
            } else {
                t = t + 1;
            }
        }
        if !found {
            proof {
                // a descendant's chain provides a parent witness inside the run
                if is_desc(s, e as int, i0 as int) {
                    let p = choose|p: int|
                        parent_link(s, e as int, p) && (p == i0 as int || is_desc(s, p, i0 as int));
                    if p != i0 as int {
                        lemma_desc_lower(s, p, i0 as int);
                    }
                    assert(s[p].id == pid);
                    assert(false);
                }
                assert(!is_desc(s, e as int, i0 as int));
                assert(e as int == re);
            }
            return e;
        }
        proof {
            // a parent inside the run makes this bone a descendant
            let q = choose|q: int| i0 <= q < e && (#[trigger] s[q].id) == pid;
            assert(parent_link(s, e as int, q) && (q == i0 as int || is_desc(s, q, i0 as int)));
            assert(is_desc(s, e as int, i0 as int));
        }
        e = e + 1;
    }
    proof {
        assert(e == re);
    }
    e
}

/// Collect (append to `children_vec`) all descendants of `parent`, in the
/// order they stand in the sequence: the run right after `parent`'s
/// position.
pub fn get_all_children(bones: &Vec<Bone>, children_vec: &mut Vec<Bone>, parent: &Bone)
    requires
        hierarchy_wf(bones@),
        has_id(bones@, parent.id as int),
    ensures
        ({
            let i0 = id_index(bones@, parent.id as int);
            final(children_vec)@ == old(children_vec)@ + bones@.subrange(
                i0 + 1,
                run_end(bones@, i0),
            )
        }),
{
    proof {
        lemma_id_index_props(bones@, parent.id as int);
    }
    let ghost s = bones@;
    let mut i0: usize = 0;
    while i0 < bones.len() && bones[i0].id != parent.id
        invariant
            s == bones@,
            0 <= i0 <= s.len(),
            forall|k: int| 0 <= k < i0 ==> (#[trigger] s[k].id) != parent.id,
        decreases s.len() - i0,
    {
        i0 = i0 + 1;
    }
    proof {
        assert(i0 < s.len());
        lemma_id_index_from_props(s, parent.id as int, 0);
        assert(i0 as int == id_index(s, parent.id as int));
        lemma_subtree_run(s, i0 as int);
    }
    let e = run_end_exec(bones, i0);
    let mut k: usize = i0 + 1;
    while k < e
        invariant
            s == bones@,
            i0 + 1 <= k <= e <= s.len(),
            children_vec@ == old(children_vec)@ + s.subrange(i0 + 1, k as int),
        decreases e - k,
    {
        let ghost before = children_vec@;
        children_vec.push(bones[k].duplicate());
        proof {
            assert(children_vec@ =~= old(children_vec)@ + s.subrange(i0 + 1, k + 1));
        }
        k = k + 1;
    }
    proof {
        assert(children_vec@ =~= old(children_vec)@ + s.subrange(
            i0 as int + 1,
            run_end(s, i0 as int),
        ));
    }
}

} // verus!

verus! {

/// A subtree-run end is unique: it must be [`run_end`].
pub proof fn lemma_subtree_run_unique(s: Seq<Bone>, i0: int, e: int)
    requires
        subtree_run(s, i0, e),
    ensures
        e == run_end(s, i0),
{
    lemma_run_end_from_props(s, i0, i0 + 1);
    let re = run_end(s, i0);
    if re < e {
        assert(is_desc(s, re, i0));
        assert(false);
    } else if re > e {
        assert(is_desc(s, e, i0));
        assert(false);
    }
}

/// Re-pointing the parent of the bone at `i0` does not change who descends
/// from it.
pub proof fn lemma_desc_parent_update(s: Seq<Bone>, i0: int, np: i32, j: int)
    requires
        0 <= i0 < s.len(),
        0 <= j < s.len(),
    ensures
        is_desc(s.update(i0, with_parent(s[i0], np)), j, i0) == is_desc(s, j, i0),
{
    let t = s.update(i0, with_parent(s[i0], np));
    let dom = Set::new(|i: int| 0 <= i < s.len());
    let f = (|i: int| i);
    if is_desc(s, j, i0) {
        lemma_desc_embed(s, t, dom, f, j, i0);
    }
    if is_desc(t, j, i0) {
        lemma_desc_embed(t, s, dom, f, j, i0);
    }
}

/// Find the position of the first bone with this id.
fn index_of_id(bones: &Vec<Bone>, id: i32) -> (r: Option<usize>)
    ensures
        r matches Some(i) ==> i as int == id_index(bones@, id as int) && i < bones@.len()
            && bones@[i as int].id == id,
        r is None ==> !has_id(bones@, id as int),
{
    proof {
        lemma_id_index_props(bones@, id as int);
    }
    let ghost s = bones@;
    let mut i: usize = 0;
    while i < bones.len()
        invariant
            s == bones@,
            0 <= i <= s.len(),
            forall|k: int| 0 <= k < i ==> (#[trigger] s[k].id) != id,
        decreases s.len() - i,
    {
        if bones[i].id == id {
            proof {
                lemma_id_index_from_props(s, id as int, 0);
                if id_index(s, id as int) == -1 {
                    assert(s[i as int].id != id);
                }
            }
            return Some(i);
        }
        i = i + 1;
    }
    None
}

/// Remove the positions `[i0, e)`.
fn remove_span(bones: &mut Vec<Bone>, i0: usize, e: usize)
    requires
        i0 < e <= old(bones)@.len(),
    ensures
        final(bones)@ == remove_run(old(bones)@, i0 as int, e as int),
{
    let ghost s = bones@;
    let len0 = e - i0;
    let mut r: usize = 0;
    while r < len0
        invariant
            r <= len0,
            len0 == e - i0,
            i0 < e <= s.len(),
            bones@ == s.subrange(0, i0 as int) + s.subrange(i0 + r, s.len() as int),
        decreases len0 - r,
    {
        bones.remove(i0);
        proof {
            assert(bones@ =~= s.subrange(0, i0 as int) + s.subrange(i0 + r + 1, s.len() as int));
        }
        r = r + 1;
    }
    proof {
        assert(bones@ =~= remove_run(s, i0 as int, e as int));
    }
}

/// Move the run `[i0, e)` so that it starts at `target`'s new position
/// (or right after it, with `after`).
fn splice_run(bones: &mut Vec<Bone>, i0: usize, e: usize, target: usize, after: bool)
    requires
        subtree_run(old(bones)@, i0 as int, e as int),
        target < old(bones)@.len(),
        !(i0 <= target && target < e),
    ensures
        ({
            let s = old(bones)@;
            let s1 = remove_run(s, i0 as int, e as int);
            let p = rm_pos(i0 as int, e as int, target as int) + (if after {
                1int
            } else {
                0int
            });
            final(bones)@ == insert_block(s1, s.subrange(i0 as int, e as int), p)
        }),
{
    let ghost s = bones@;
    let n = bones.len();
    let len0 = e - i0;
    // capture the block
    let mut block: Vec<Bone> = Vec::new();
    let mut k: usize = i0;
    while k < e
        invariant
            s == bones@,
            i0 <= k <= e <= s.len(),
            block@ == s.subrange(i0 as int, k as int),
        decreases e - k,
    {
        block.push(bones[k].duplicate());
        proof {
            assert(block@ =~= s.subrange(i0 as int, k + 1));
        }
        k = k + 1;
    }
    remove_span(bones, i0, e);
    let ghost s1 = remove_run(s, i0 as int, e as int);
    // the anchor's position after removal
    let t1 = if target < i0 {
        target
    } else {
        target - len0
    };
    let p = if after {
        t1 + 1
    } else {
        t1
    };
    proof {
        assert(p <= s1.len());
        assert(s1.len() + len0 == n);
    }
    // reinsert the block
    let mut k: usize = 0;
    while k < block.len()
        invariant
            block@ == s.subrange(i0 as int, e as int),
            k <= block@.len(),
            p + block@.len() <= usize::MAX,
            p as int <= s1.len(),
            bones@ == s1.subrange(0, p as int) + block@.subrange(0, k as int) + s1.subrange(
                p as int,
                s1.len() as int,
            ),
        decreases block@.len() - k,
    {
        bones.insert(p + k, block[k].duplicate());
        proof {
            assert(bones@ =~= s1.subrange(0, p as int) + block@.subrange(0, k + 1) + s1.subrange(
                p as int,
                s1.len() as int,
            ));
        }
        k = k + 1;
    }
    proof {
        assert(bones@ =~= insert_block(s1, s.subrange(i0 as int, e as int), p as int));
    }
}

/// Relocate the bone at `old_idx` together with its whole contiguous
/// descendant run: the run is cut out and reinserted so that it starts at
/// the anchor's position (`is_setting_parent == false`) or right after the
/// anchor (`is_setting_parent == true`). Parent references are the caller's
/// business, as is ruling out an anchor inside the moved run.
pub fn move_bone(bones: &mut Vec<Bone>, old_idx: i32, new_idx: i32, is_setting_parent: bool)
    requires
        0 <= old_idx,
        (old_idx as int) < old(bones)@.len(),
        0 <= new_idx,
        (new_idx as int) < old(bones)@.len(),
        subtree_run(old(bones)@, old_idx as int, run_end(old(bones)@, old_idx as int)),
        !(old_idx <= new_idx && (new_idx as int) < run_end(old(bones)@, old_idx as int)),
    ensures
        ({
            let s = old(bones)@;
            let i0 = old_idx as int;
            let e = run_end(s, i0);
            let p = rm_pos(i0, e, new_idx as int) + (if is_setting_parent {
                1int
            } else {
                0int
            });
            final(bones)@ == insert_block(remove_run(s, i0, e), s.subrange(i0, e), p)
        }),
{
    let i0 = old_idx as usize;
    let e = run_end_exec(bones, i0);
    splice_run(bones, i0, e, new_idx as usize, is_setting_parent);
}

} // verus!

verus! {

/// A reparent was refused because the anchor lies in the moved subtree.
#[derive(Clone, Copy, PartialEq, Eq, Structural, Debug)]
pub struct CycleError;

/// The sequence a successful reparent produces: the moved bone's run, its
/// root re-pointed, cut out and reinserted at the anchor's position
/// (sibling) or right after the anchor (child).
pub open spec fn reparent_result(s: Seq<Bone>, i0: int, e: int, a0: int, as_child: bool) -> Seq<
    Bone,
> {
    let np = if as_child {
        s[a0].id
    } else {
        s[a0].parent_id
    };
    let p = rm_pos(i0, e, a0) + (if as_child {
        1int
    } else {
        0int
    });
    insert_block(remove_run(s, i0, e), moved_block(s, i0, e, np), p)
}

/// Make the bone with `moved_id` (together with its whole subtree) a
/// sibling placed before — or the first child of — the bone with
/// `anchor_id`. Refused, leaving the hierarchy unchanged, when the anchor
/// lies in the moved subtree (that would make the bone its own ancestor).
pub fn reparent(bones: &mut Vec<Bone>, moved_id: i32, anchor_id: i32, as_child: bool) -> (r:
    Result<(), CycleError>)
    requires
        hierarchy_wf(old(bones)@),
        has_id(old(bones)@, moved_id as int),
        has_id(old(bones)@, anchor_id as int),
    ensures
        hierarchy_wf(final(bones)@),
        ({
            let s = old(bones)@;
            let i0 = id_index(s, moved_id as int);
            let e = run_end(s, i0);
            let a0 = id_index(s, anchor_id as int);
            if i0 <= a0 < e {
                final(bones)@ == s && (r is Err)
            } else {
                final(bones)@ == reparent_result(s, i0, e, a0, as_child) && (r is Ok)
            }
        }),
{
    let ghost s = bones@;
    let i0 = index_of_id(bones, moved_id).unwrap();
    proof {
        lemma_subtree_run(s, i0 as int);
    }
    let e = run_end_exec(bones, i0);
    let a0 = index_of_id(bones, anchor_id).unwrap();
    if i0 <= a0 && a0 < e {
        return Err(CycleError);
    }
    let np = if as_child {
        bones[a0].id
    } else {
        bones[a0].parent_id
    };
    // re-point the subtree root before the move
    let mut nb = bones[i0].duplicate();
    nb.parent_id = np;
    bones[i0] = nb;
    let ghost s2 = bones@;
    proof {
        assert(s2 =~= s.update(i0 as int, with_parent(s[i0 as int], np)));
        assert forall|j: int| 0 <= j < s2.len() implies is_desc(s2, j, i0 as int) == is_desc(
            s,
            j,
            i0 as int,
        ) by {
            lemma_desc_parent_update(s, i0 as int, np, j);
        }
        assert(subtree_run(s2, i0 as int, e as int));
        lemma_subtree_run_unique(s2, i0 as int, e as int);
    }
    splice_run(bones, i0, e, a0, as_child);
    proof {
        let gi0 = i0 as int;
        let ge = e as int;
        let ga0 = a0 as int;
        let s1 = remove_run(s, gi0, ge);
        let b = moved_block(s, gi0, ge, np);
        let a1 = rm_pos(gi0, ge, ga0);
        let p = a1 + (if as_child {
            1int
        } else {
            0int
        });
        let l = ge - gi0;
        assert(remove_run(s2, gi0, ge) =~= s1);
        assert(s2.subrange(gi0, ge) =~= b);
        assert(bones@ == insert_block(s1, b, p));
        // well-formedness of the spliced sequence
        lemma_remove_run_wf(s, gi0, ge);
        lemma_extract_standalone(s, gi0, ge);
        assert(root_neutral(b) =~= root_neutral(s.subrange(gi0, ge)));
        assert forall|x: int| 0 <= x < s1.len() implies s1[x] == s[if x < gi0 {
            x
        } else {
            x + l
        }] by {
            if x >= gi0 {
                assert(s1[x] == s.subrange(ge, s.len() as int)[x - gi0]);
            }
        }
        assert forall|i: int, j: int|
            #![trigger s1[i].id, b[j].id]
            0 <= i < s1.len() && 0 <= j < b.len() implies s1[i].id != b[j].id by {
            assert(b[j].id == s[gi0 + j].id);
        }
        assert(s1[a1] == s[ga0]);
        assert(a1 < s1.len());
        if as_child {
            // the block root becomes the anchor's first child
            assert(b[0].parent_id == s1[p - 1].id);
            if p < s1.len() {
                assert(stack_ok_at(s1, p));
                if s1[p].parent_id != -1 && s1[p].parent_id != b[0].parent_id {
                    let q = choose|q: int| parent_link(s1, p, q) && is_desc(s1, p - 1, q);
                    assert(0 <= q < p && 0 <= a1 < p && s1[q].id == s1[p].parent_id && s1[a1].id
                        == b[0].parent_id && (a1 == q || is_desc(s1, a1, q)));
                    assert(seam_witness(s1, p, b[0].parent_id));
                }
            }
            lemma_insert_subtree_wf(s1, b, p);
        } else {
            // the block root becomes a sibling placed before the anchor
            assert(b[0].parent_id == s1[a1].parent_id);
            if p == 0 {
                assert(b[0].parent_id == -1);
            } else {
                assert(stack_ok_at(s1, p));
            }
            assert(s1[p].parent_id == b[0].parent_id);
            lemma_insert_subtree_wf(s1, b, p);
        }
    }
    Ok(())
}

/// Delete the bone with this id together with its whole subtree. Returns
/// whether anything was deleted.
pub fn delete_bone(bones: &mut Vec<Bone>, id: i32) -> (r: bool)
    requires
        hierarchy_wf(old(bones)@),
    ensures
        hierarchy_wf(final(bones)@),
        !has_id(old(bones)@, id as int) ==> final(bones)@ == old(bones)@ && r == false,
        has_id(old(bones)@, id as int) ==> r == true && ({
            let s = old(bones)@;
            let i0 = id_index(s, id as int);
            final(bones)@ == remove_run(s, i0, run_end(s, i0))
        }),
{
    let ghost s = bones@;
    let found = index_of_id(bones, id);
    match found {
        None => false,
        Some(i0) => {
            proof {
                lemma_subtree_run(s, i0 as int);
            }
            let e = run_end_exec(bones, i0);
            remove_span(bones, i0, e);
            proof {
                lemma_remove_run_wf(s, i0 as int, e as int);
            }
            true
        },
    }
}

} // verus!

verus! {

/// Dropping the last bone keeps the hierarchy well-formed.
pub proof fn lemma_drop_last_wf(s: Seq<Bone>)
    requires
        hierarchy_wf(s),
        s.len() > 0,
    ensures
        hierarchy_wf(s.drop_last()),
{
    let t = s.drop_last();
    let dom = Set::new(|i: int| 0 <= i < t.len());
    let f = (|i: int| i);
    assert forall|x: int| 1 <= x < t.len() implies stack_ok_at(t, x) by {
        assert(stack_ok_at(s, x));
        if s[x].parent_id != -1 && s[x].parent_id != s[x - 1].id {
            let q = choose|q: int| parent_link(s, x, q) && is_desc(s, x - 1, q);
            lemma_desc_lower(s, x - 1, q);
            lemma_desc_embed(s, t, dom, f, x - 1, q);
            assert(parent_link(t, x, q));
            assert(parent_link(t, x, q) && is_desc(t, x - 1, q));
        }
    }
}

/// Two sequences with the same ids and parent references in the same
/// places have the same hierarchy structure: well-formedness carries over.
pub proof fn lemma_wf_same_structure(s: Seq<Bone>, t: Seq<Bone>)
    requires
        hierarchy_wf(s),
        s.len() == t.len(),
        forall|i: int|
            0 <= i < s.len() ==> (#[trigger] t[i]).id == s[i].id && t[i].parent_id
                == s[i].parent_id,
    ensures
        hierarchy_wf(t),
{
    let dom = Set::new(|i: int| 0 <= i < s.len());
    let f = (|i: int| i);
    assert forall|x: int| 1 <= x < t.len() implies stack_ok_at(t, x) by {
        assert(stack_ok_at(s, x));
        if s[x].parent_id != -1 && s[x].parent_id != s[x - 1].id {
            let q = choose|q: int| parent_link(s, x, q) && is_desc(s, x - 1, q);
            lemma_desc_lower(s, x - 1, q);
            lemma_desc_embed(s, t, dom, f, x - 1, q);
            assert(parent_link(t, x, q));
            assert(parent_link(t, x, q) && is_desc(t, x - 1, q));
        }
    }
}

} // verus!

verus! {

/// `id` is the smallest non-negative value not used by any bone.
pub open spec fn is_fresh_id_spec(s: Seq<Bone>, id: int) -> bool {
    &&& id >= 0
    &&& !has_id(s, id)
    &&& forall|k: int| 0 <= k < id ==> has_id(s, k)
}

} // verus!

verus! {

/// Find the position of the first bone with the given id.
pub fn find_bone_idx_usize(bones: &Vec<Bone>, id: i32) -> (r: Option<usize>)
    ensures
        r matches Some(i) ==> i as int == id_index(bones@, id as int) && i < bones@.len()
            && bones@[i as int].id == id,
        (r is Some) == has_id(bones@, id as int),
{
    proof {
        lemma_id_index_props(bones@, id as int);
    }
    index_of_id(bones, id)
}

} // verus!
