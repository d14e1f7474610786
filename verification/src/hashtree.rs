//! Hash trees: what they hash to, what they reveal, and how a part of one
//! stands for the whole.

use ic_certification::{AsHashTree, RbTree};
use sha2::Digest;
use vstd::prelude::*;
use vstd::utf8::*;

use crate::order::{before, lemma_before_irreflexive, lemma_before_transitive};
use crate::text::told;

verus! {

// --- the model ----------------------------------------------------------------------

/// A hash tree by its shape.
pub enum Shape {
    Empty,
    Fork(Box<Shape>, Box<Shape>),
    Labeled(Seq<u8>, Box<Shape>),
    Leaf(Seq<u8>),
    Pruned(Seq<u8>),
}

/// The SHA-256 digest of bytes.
pub uninterp spec fn sha256(data: Seq<u8>) -> Seq<u8>;

/// The digest of data under a domain separator: its length as one byte, the
/// separator, then the data.
pub open spec fn tagged(domain: Seq<char>, data: Seq<u8>) -> Seq<u8> {
    sha256(seq![encode_utf8(domain).len() as u8] + encode_utf8(domain) + data)
}

/// The digest of a fork.
pub open spec fn fork_digest(l: Seq<u8>, r: Seq<u8>) -> Seq<u8> {
    tagged("ic-hashtree-fork"@, l + r)
}

/// The digest of a labeled tree.
pub open spec fn labeled_digest(label: Seq<u8>, t: Seq<u8>) -> Seq<u8> {
    tagged("ic-hashtree-labeled"@, label + t)
}

/// The digest of a tree.
pub open spec fn digest_of(t: Shape) -> Seq<u8>
    decreases t,
{
    match t {
        Shape::Empty => tagged("ic-hashtree-empty"@, Seq::empty()),
        Shape::Fork(l, r) => fork_digest(digest_of(*l), digest_of(*r)),
        Shape::Labeled(label, t) => labeled_digest(label, digest_of(*t)),
        Shape::Leaf(data) => tagged("ic-hashtree-leaf"@, data),
        Shape::Pruned(hash) => hash,
    }
}

/// Whether a tree reveals `value` at the end of a path of labels.
pub open spec fn reveals(t: Shape, path: Seq<Seq<u8>>, value: Seq<u8>) -> bool
    decreases t,
{
    match t {
        Shape::Empty => false,
        Shape::Fork(l, r) => reveals(*l, path, value) || reveals(*r, path, value),
        Shape::Labeled(label, t) => path.len() > 0 && path[0] == label && reveals(
            *t,
            path.drop_first(),
            value,
        ),
        Shape::Leaf(data) => path.len() == 0 && data == value,
        Shape::Pruned(_) => false,
    }
}

/// Whether `part` is `whole` with some of its subtrees pruned to their
/// digests.
pub open spec fn prunes(part: Shape, whole: Shape) -> bool
    decreases part,
{
    match part {
        Shape::Pruned(hash) => hash == digest_of(whole),
        Shape::Empty => whole is Empty,
        Shape::Leaf(data) => whole == Shape::Leaf(data),
        Shape::Labeled(label, t) => match whole {
            Shape::Labeled(whole_label, w) => label == whole_label && prunes(*t, *w),
            _ => false,
        },
        Shape::Fork(l, r) => match whole {
            Shape::Fork(wl, wr) => prunes(*l, *wl) && prunes(*r, *wr),
            _ => false,
        },
    }
}

/// Two parts of one tree joined: what either shows, the result shows.
pub open spec fn merged(a: Shape, b: Shape) -> Shape
    decreases a,
{
    match (a, b) {
        (Shape::Pruned(_), _) => b,
        (_, Shape::Pruned(_)) => a,
        (Shape::Fork(al, ar), Shape::Fork(bl, br)) => Shape::Fork(
            Box::new(merged(*al, *bl)),
            Box::new(merged(*ar, *br)),
        ),
        (Shape::Labeled(label, at), Shape::Labeled(_, bt)) => Shape::Labeled(
            label,
            Box::new(merged(*at, *bt)),
        ),
        _ => a,
    }
}

/// Whether a label stands at the top of a tree, under forks only.
pub open spec fn has_label(t: Shape, label: Seq<u8>) -> bool
    decreases t,
{
    match t {
        Shape::Labeled(l, _) => l == label,
        Shape::Fork(l, r) => has_label(*l, label) || has_label(*r, label),
        _ => false,
    }
}

/// Whether every label in the left of two trees is before every label in
/// the right one.
pub open spec fn labels_before(l: Shape, r: Shape) -> bool {
    forall|a: Seq<u8>, b: Seq<u8>| #[trigger]
        has_label(l, a) && #[trigger] has_label(r, b) ==> before(a, b)
}

/// Whether a tree may stand under a fork.
pub open spec fn forkable(t: Shape) -> bool {
    t is Fork || t is Labeled || t is Pruned
}

/// A tree whose labels are in order under every fork, and whose forks end
/// in labels or pruned parts: one that a lookup by labels searches in full.
pub open spec fn orderly(t: Shape) -> bool
    decreases t,
{
    match t {
        Shape::Fork(l, r) => forkable(*l) && forkable(*r) && orderly(*l) && orderly(*r)
            && labels_before(*l, *r),
        Shape::Labeled(_, t) => orderly(*t),
        _ => true,
    }
}

/// Whether a label before `label` stands at the top of a tree.
pub open spec fn has_below(t: Shape, label: Seq<u8>) -> bool {
    exists|l: Seq<u8>| #[trigger] has_label(t, l) && before(l, label)
}

/// Whether a label behind `label` stands at the top of a tree.
pub open spec fn has_above(t: Shape, label: Seq<u8>) -> bool {
    exists|l: Seq<u8>| #[trigger] has_label(t, l) && before(label, l)
}

/// Whether a tree in order shows that a label does not stand at its top. A
/// pruned part cannot hold the label where a smaller label stands to the
/// right of it, or a larger one to the left: `below_right` and `above_left`
/// say whether one does outside of the tree.
pub open spec fn excludes(
    t: Shape,
    label: Seq<u8>,
    below_right: bool,
    above_left: bool,
) -> bool
    decreases t,
{
    match t {
        Shape::Pruned(_) => below_right || above_left,
        Shape::Labeled(l, _) => l != label,
        Shape::Fork(l, r) => excludes(*l, label, below_right || has_below(*r, label), above_left)
            && excludes(*r, label, below_right, above_left || has_above(*l, label)),
        _ => true,
    }
}

/// Whether a tree stands under a label at the top of another.
pub open spec fn stands_under(t: Shape, label: Seq<u8>, sub: Shape) -> bool
    decreases t,
{
    match t {
        Shape::Labeled(l, s) => l == label && *s == sub,
        Shape::Fork(l, r) => stands_under(*l, label, sub) || stands_under(*r, label, sub),
        _ => false,
    }
}

/// Whether a tree shows that nothing stands at a path of two labels: the
/// first is there, and what stands under it excludes the second.
pub open spec fn rules_out(t: Shape, first: Seq<u8>, second: Seq<u8>) -> bool {
    exists|sub: Shape| #[trigger]
        stands_under(t, first, sub) && excludes(sub, second, false, false)
}

/// How deep a tree is nested.
pub open spec fn depth(t: Shape) -> nat
    decreases t,
{
    match t {
        Shape::Fork(l, r) => 1 + if depth(*l) >= depth(*r) {
            depth(*l)
        } else {
            depth(*r)
        },
        Shape::Labeled(_, t) => 1 + depth(*t),
        _ => 1,
    }
}

/// A part of an orderly tree.
pub open spec fn honest_part(part: Shape, whole: Shape) -> bool {
    prunes(part, whole) && orderly(whole)
}

/// A path of two labels.
pub open spec fn two_labels(a: Seq<u8>, b: Seq<u8>) -> Seq<Seq<u8>> {
    seq![a, b]
}

/// Whether a tree reveals the entry of `key`, if there is one, and nothing
/// else.
pub open spec fn shows_only(t: Shape, key: Seq<u8>, entries: Map<Seq<u8>, Seq<u8>>) -> bool {
    forall|path: Seq<Seq<u8>>, v: Seq<u8>| #[trigger]
        reveals(t, path, v) <==> path == seq![key] && entries.contains_key(key) && v
            == entries[key]
}

// --- what follows -------------------------------------------------------------------

/// A part of a tree has the digest of the whole.
pub proof fn lemma_prunes_digest(part: Shape, whole: Shape)
    requires
        prunes(part, whole),
    ensures
        digest_of(part) == digest_of(whole),
    decreases part,
{
    match part {
        Shape::Labeled(label, t) => match whole {
            Shape::Labeled(whole_label, w) => {
                lemma_prunes_digest(*t, *w);
            },
            _ => {},
        },
        Shape::Fork(l, r) => match whole {
            Shape::Fork(wl, wr) => {
                lemma_prunes_digest(*l, *wl);
                lemma_prunes_digest(*r, *wr);
            },
            _ => {},
        },
        _ => {},
    }
}

/// Two parts of a tree join to a part of it.
pub proof fn lemma_merged_prunes(a: Shape, b: Shape, whole: Shape)
    requires
        prunes(a, whole),
        prunes(b, whole),
    ensures
        prunes(merged(a, b), whole),
    decreases a,
{
    match (a, b) {
        (Shape::Fork(al, ar), Shape::Fork(bl, br)) => match whole {
            Shape::Fork(wl, wr) => {
                lemma_merged_prunes(*al, *bl, *wl);
                lemma_merged_prunes(*ar, *br, *wr);
            },
            _ => {},
        },
        (Shape::Labeled(label, at), Shape::Labeled(_, bt)) => match whole {
            Shape::Labeled(_, w) => {
                lemma_merged_prunes(*at, *bt, *w);
            },
            _ => {},
        },
        _ => {},
    }
}

/// Two parts of a tree, joined, reveal exactly what either reveals.
pub proof fn lemma_merged_reveals(
    a: Shape,
    b: Shape,
    whole: Shape,
    path: Seq<Seq<u8>>,
    value: Seq<u8>,
)
    requires
        prunes(a, whole),
        prunes(b, whole),
    ensures
        reveals(merged(a, b), path, value) <==> reveals(a, path, value) || reveals(b, path, value),
    decreases a,
{
    match (a, b) {
        (Shape::Fork(al, ar), Shape::Fork(bl, br)) => match whole {
            Shape::Fork(wl, wr) => {
                lemma_merged_reveals(*al, *bl, *wl, path, value);
                lemma_merged_reveals(*ar, *br, *wr, path, value);
            },
            _ => {},
        },
        (Shape::Labeled(label, at), Shape::Labeled(_, bt)) => match whole {
            Shape::Labeled(_, w) => {
                lemma_merged_reveals(*at, *bt, *w, path.drop_first(), value);
            },
            _ => {},
        },
        _ => {},
    }
}

/// A label of a part is a label of the whole.
proof fn lemma_prunes_label(part: Shape, whole: Shape, label: Seq<u8>)
    requires
        prunes(part, whole),
        has_label(part, label),
    ensures
        has_label(whole, label),
    decreases part,
{
    match part {
        Shape::Fork(l, r) => match whole {
            Shape::Fork(wl, wr) => {
                if has_label(*l, label) {
                    lemma_prunes_label(*l, *wl, label);
                } else {
                    lemma_prunes_label(*r, *wr, label);
                }
            },
            _ => {},
        },
        _ => {},
    }
}

/// A label that a part of an orderly tree excludes is not in the whole.
pub proof fn lemma_excluded_label(
    part: Shape,
    whole: Shape,
    label: Seq<u8>,
    below_right: bool,
    above_left: bool,
)
    requires
        prunes(part, whole),
        orderly(whole),
        excludes(part, label, below_right, above_left),
        below_right ==> forall|l: Seq<u8>| #[trigger] has_label(whole, l) ==> before(l, label),
        above_left ==> forall|l: Seq<u8>| #[trigger] has_label(whole, l) ==> before(label, l),
    ensures
        !has_label(whole, label),
    decreases part,
{
    lemma_before_irreflexive(label);
    match part {
        Shape::Fork(l, r) => match whole {
            Shape::Fork(wl, wr) => {
                let below = below_right || has_below(*r, label);
                let above = above_left || has_above(*l, label);
                assert forall|x: Seq<u8>| below && #[trigger] has_label(*wl, x) implies before(
                    x,
                    label,
                ) by {
                    if below_right {
                        assert(has_label(whole, x));
                    } else {
                        let y = choose|y: Seq<u8>| #[trigger]
                            has_label(*r, y) && before(y, label);
                        lemma_prunes_label(*r, *wr, y);
                        assert(before(x, y));
                        lemma_before_transitive(x, y, label);
                    }
                }
                assert forall|x: Seq<u8>| above && #[trigger] has_label(*wr, x) implies before(
                    label,
                    x,
                ) by {
                    if above_left {
                        assert(has_label(whole, x));
                    } else {
                        let y = choose|y: Seq<u8>| #[trigger]
                            has_label(*l, y) && before(label, y);
                        lemma_prunes_label(*l, *wl, y);
                        assert(before(y, x));
                        lemma_before_transitive(label, y, x);
                    }
                }
                assert forall|x: Seq<u8>| above_left && #[trigger] has_label(
                    *wl,
                    x,
                ) implies before(label, x) by {
                    assert(has_label(whole, x));
                }
                assert forall|x: Seq<u8>| below_right && #[trigger] has_label(
                    *wr,
                    x,
                ) implies before(x, label) by {
                    assert(has_label(whole, x));
                }
                lemma_excluded_label(*l, *wl, label, below, above_left);
                lemma_excluded_label(*r, *wr, label, below_right, above);
            },
            _ => {},
        },
        _ => {},
    }
}

/// Absence is proved of the whole: what a part of an orderly tree excludes,
/// the whole does not hold, whatever was pruned.
pub proof fn law_excluded_is_not_held(
    part: Shape,
    whole: Shape,
    path: Seq<Seq<u8>>,
    value: Seq<u8>,
)
    requires
        prunes(part, whole),
        orderly(whole),
        path.len() > 0,
        excludes(part, path[0], false, false),
    ensures
        !reveals(whole, path, value),
{
    lemma_excluded_label(part, whole, path[0], false, false);
    if reveals(whole, path, value) {
        lemma_reveals_label(whole, path, value);
    }
}

/// A tree that excludes a label does so the more, the more is known of what
/// stands beside it.
proof fn lemma_excludes_more(
    t: Shape,
    label: Seq<u8>,
    b1: bool,
    a1: bool,
    b2: bool,
    a2: bool,
)
    requires
        excludes(t, label, b1, a1),
        b1 ==> b2,
        a1 ==> a2,
    ensures
        excludes(t, label, b2, a2),
    decreases t,
{
    match t {
        Shape::Fork(l, r) => {
            let (below, above) = (has_below(*r, label), has_above(*l, label));
            lemma_excludes_more(*l, label, b1 || below, a1, b2 || below, a2);
            lemma_excludes_more(*r, label, b1, a1 || above, b2, a2 || above);
        },
        _ => {},
    }
}

/// Beside a label that shuts its pruned parts out, every part of a tree
/// without a label excludes it.
proof fn lemma_part_excludes(part: Shape, whole: Shape, label: Seq<u8>, below: bool, above: bool)
    requires
        prunes(part, whole),
        !has_label(whole, label),
        below || above,
    ensures
        excludes(part, label, below, above),
    decreases part,
{
    match part {
        Shape::Fork(l, r) => match whole {
            Shape::Fork(wl, wr) => {
                lemma_part_excludes(*l, *wl, label, below || has_below(*r, label), above);
                lemma_part_excludes(*r, *wr, label, below, above || has_above(*l, label));
            },
            _ => {},
        },
        _ => {},
    }
}

/// The labels of two parts of a tree are labels of the joined part.
proof fn lemma_merged_label(a: Shape, b: Shape, whole: Shape, label: Seq<u8>)
    requires
        prunes(a, whole),
        prunes(b, whole),
        has_label(a, label) || has_label(b, label),
    ensures
        has_label(merged(a, b), label),
    decreases a,
{
    match (a, b) {
        (Shape::Fork(al, ar), Shape::Fork(bl, br)) => match whole {
            Shape::Fork(wl, wr) => {
                if has_label(*al, label) || has_label(*bl, label) {
                    lemma_merged_label(*al, *bl, *wl, label);
                } else {
                    lemma_merged_label(*ar, *br, *wr, label);
                }
            },
            _ => {},
        },
        _ => {},
    }
}

/// A label that one of two parts of a tree excludes, the joined part
/// excludes.
pub proof fn lemma_merged_excludes(
    a: Shape,
    b: Shape,
    whole: Shape,
    label: Seq<u8>,
    below: bool,
    above: bool,
)
    requires
        prunes(a, whole),
        prunes(b, whole),
        !has_label(whole, label),
        excludes(a, label, below, above) || excludes(b, label, below, above),
    ensures
        excludes(merged(a, b), label, below, above),
    decreases a,
{
    match (a, b) {
        (Shape::Pruned(_), _) => {
            if excludes(a, label, below, above) {
                lemma_part_excludes(b, whole, label, below, above);
            }
        },
        (_, Shape::Pruned(_)) => {
            if excludes(b, label, below, above) {
                lemma_part_excludes(a, whole, label, below, above);
            }
        },
        (Shape::Fork(al, ar), Shape::Fork(bl, br)) => match whole {
            Shape::Fork(wl, wr) => {
                let (l, r) = (merged(*al, *bl), merged(*ar, *br));
                let from_a = excludes(a, label, below, above);
                let (xl, xr) = if from_a {
                    (*al, *ar)
                } else {
                    (*bl, *br)
                };
                let b1 = below || has_below(xr, label);
                let a1 = above || has_above(xl, label);
                lemma_merged_excludes(*al, *bl, *wl, label, b1, above);
                lemma_merged_excludes(*ar, *br, *wr, label, below, a1);
                if has_below(xr, label) {
                    let y = choose|y: Seq<u8>| #[trigger] has_label(xr, y) && before(y, label);
                    lemma_merged_label(*ar, *br, *wr, y);
                    assert(has_below(r, label));
                }
                if has_above(xl, label) {
                    let y = choose|y: Seq<u8>| #[trigger] has_label(xl, y) && before(label, y);
                    lemma_merged_label(*al, *bl, *wl, y);
                    assert(has_above(l, label));
                }
                lemma_excludes_more(l, label, b1, above, below || has_below(r, label), above);
                lemma_excludes_more(r, label, below, a1, below, above || has_above(l, label));
            },
            _ => {},
        },
        _ => {},
    }
}

/// A part of an orderly tree is orderly.
pub proof fn lemma_prunes_orderly(part: Shape, whole: Shape)
    requires
        prunes(part, whole),
        orderly(whole),
    ensures
        orderly(part),
    decreases part,
{
    match part {
        Shape::Labeled(_, t) => match whole {
            Shape::Labeled(_, w) => {
                lemma_prunes_orderly(*t, *w);
            },
            _ => {},
        },
        Shape::Fork(l, r) => match whole {
            Shape::Fork(wl, wr) => {
                lemma_prunes_orderly(*l, *wl);
                lemma_prunes_orderly(*r, *wr);
                reveal_with_fuel(prunes, 2);
                assert forall|a: Seq<u8>, b: Seq<u8>| #[trigger]
                    has_label(*l, a) && #[trigger] has_label(*r, b) implies before(a, b) by {
                    lemma_prunes_label(*l, *wl, a);
                    lemma_prunes_label(*r, *wr, b);
                }
            },
            _ => {},
        },
        _ => {},
    }
}

/// What a tree reveals at a path begins with a label of the tree.
proof fn lemma_reveals_label(t: Shape, path: Seq<Seq<u8>>, value: Seq<u8>)
    requires
        path.len() > 0,
        reveals(t, path, value),
    ensures
        has_label(t, path[0]),
    decreases t,
{
    match t {
        Shape::Fork(l, r) => {
            if reveals(*l, path, value) {
                lemma_reveals_label(*l, path, value);
            } else {
                lemma_reveals_label(*r, path, value);
            }
        },
        _ => {},
    }
}

/// An orderly tree reveals at most one value at a path.
pub proof fn lemma_reveals_one(t: Shape, path: Seq<Seq<u8>>, a: Seq<u8>, b: Seq<u8>)
    requires
        orderly(t),
        reveals(t, path, a),
        reveals(t, path, b),
    ensures
        a == b,
    decreases t,
{
    match t {
        Shape::Labeled(_, s) => lemma_reveals_one(*s, path.drop_first(), a, b),
        Shape::Fork(l, r) => {
            if path.len() > 0 {
                if reveals(*l, path, a) {
                    lemma_reveals_label(*l, path, a);
                }
                if reveals(*l, path, b) {
                    lemma_reveals_label(*l, path, b);
                }
                if reveals(*r, path, a) {
                    lemma_reveals_label(*r, path, a);
                }
                if reveals(*r, path, b) {
                    lemma_reveals_label(*r, path, b);
                }
                lemma_before_irreflexive(path[0]);
                if reveals(*l, path, a) && reveals(*l, path, b) {
                    lemma_reveals_one(*l, path, a, b);
                } else if reveals(*r, path, a) && reveals(*r, path, b) {
                    lemma_reveals_one(*r, path, a, b);
                } else {
                    assert(has_label(*l, path[0]) && has_label(*r, path[0]));
                }
            } else {
                if reveals(*l, path, a) && reveals(*l, path, b) {
                    lemma_reveals_one(*l, path, a, b);
                } else if reveals(*r, path, a) && reveals(*r, path, b) {
                    lemma_reveals_one(*r, path, a, b);
                } else {
                    lemma_forkable_no_leaf(*l, path, a);
                    lemma_forkable_no_leaf(*r, path, a);
                }
            }
        },
        _ => {},
    }
}

/// A tree that may stand under a fork reveals nothing at the empty path.
proof fn lemma_forkable_no_leaf(t: Shape, path: Seq<Seq<u8>>, value: Seq<u8>)
    requires
        forkable(t),
        orderly(t),
        path.len() == 0,
    ensures
        !reveals(t, path, value),
    decreases t,
{
    match t {
        Shape::Fork(l, r) => {
            lemma_forkable_no_leaf(*l, path, value);
            lemma_forkable_no_leaf(*r, path, value);
        },
        _ => {},
    }
}

// --- calls into the ic-certification, sha2 and serde_cbor crates ----------------------

/// `sha2::Sha256::digest`: 32 bytes that depend on the data alone.
#[verifier::external_body]
pub(crate) fn sha256_of(data: &[u8]) -> (r: [u8; 32])
    ensures
        r@ == sha256(data@),
{
    sha2::Sha256::digest(data).into()
}

/// An `ic_certification::HashTree` over byte strings. Its parameter is bound
/// by a trait of the standard library that has no declaration here, so the
/// tree is held in a type of its own.
#[verifier::external_body]
pub struct ProofTree {
    inner: ic_certification::HashTree,
}

/// The shape of a hash tree.
pub uninterp spec fn shape_of(t: ProofTree) -> Shape;

impl View for ProofTree {
    type V = Shape;

    open spec fn view(&self) -> Shape {
        shape_of(*self)
    }
}

/// `ic_certification::fork`: the tree whose two branches are the arguments.
#[verifier::external_body]
pub(crate) fn fork(l: ProofTree, r: ProofTree) -> (t: ProofTree)
    ensures
        shape_of(t) == Shape::Fork(Box::new(shape_of(l)), Box::new(shape_of(r))),
{
    ProofTree { inner: ic_certification::fork(l.inner, r.inner) }
}

/// `ic_certification::labeled`: the tree under the label.
#[verifier::external_body]
pub(crate) fn labeled(label: &[u8], t: ProofTree) -> (r: ProofTree)
    ensures
        shape_of(r) == Shape::Labeled(label@, Box::new(shape_of(t))),
{
    ProofTree { inner: ic_certification::labeled(label, t.inner) }
}

/// `ic_certification::leaf`: the tree that is one leaf with the data.
#[verifier::external_body]
pub(crate) fn leaf(data: Vec<u8>) -> (r: ProofTree)
    ensures
        shape_of(r) == Shape::Leaf(data@),
{
    ProofTree { inner: ic_certification::leaf(data) }
}

/// `ic_certification::pruned`: the tree of which only the digest is known.
#[verifier::external_body]
pub(crate) fn pruned(hash: [u8; 32]) -> (r: ProofTree)
    ensures
        shape_of(r) == Shape::Pruned(hash@),
{
    ProofTree { inner: ic_certification::pruned(hash) }
}

/// `ic_certification::fork_hash`: the digest of a fork whose branches have
/// these digests.
#[verifier::external_body]
pub(crate) fn fork_hash(l: &[u8; 32], r: &[u8; 32]) -> (h: [u8; 32])
    ensures
        h@ == fork_digest(l@, r@),
{
    ic_certification::fork_hash(l, r)
}

/// `ic_certification::labeled_hash`: the digest of a labeled tree whose
/// content has this digest.
#[verifier::external_body]
pub(crate) fn labeled_hash(label: &[u8], t: &[u8; 32]) -> (h: [u8; 32])
    ensures
        h@ == labeled_digest(label@, t@),
{
    ic_certification::labeled_hash(label, t)
}

/// `ic_certification::merge_hash_trees`: it panics on trees that are not
/// parts of one tree, and joins two that are.
#[verifier::external_body]
pub(crate) fn merge(a: ProofTree, b: ProofTree) -> (r: ProofTree)
    requires
        exists|whole: Shape| prunes(shape_of(a), whole) && prunes(shape_of(b), whole),
    ensures
        shape_of(r) == merged(shape_of(a), shape_of(b)),
{
    ProofTree { inner: ic_certification::merge_hash_trees(a.inner, b.inner) }
}

/// What looking for a leaf gives.
#[derive(Debug, PartialEq, Eq)]
pub enum Lookup {
    Found(Vec<u8>),
    Absent,
    Unknown,
    Error,
}

/// What looking for a leaf gives, by its contents.
#[verifier::ext_equal]
pub enum LookupState {
    Found(Seq<u8>),
    Absent,
    Unknown,
    Error,
}

impl View for Lookup {
    type V = LookupState;

    open spec fn view(&self) -> LookupState {
        match self {
            Lookup::Found(v) => LookupState::Found(v@),
            Lookup::Absent => LookupState::Absent,
            Lookup::Unknown => LookupState::Unknown,
            Lookup::Error => LookupState::Error,
        }
    }
}

/// What `lookup_path` gives for a path of two labels in a tree.
pub uninterp spec fn looked_up(t: Shape, first: Seq<u8>, second: Seq<u8>) -> LookupState;

impl ProofTree {
    /// `ic_certification::HashTree::digest`: the digest of the whole tree,
    /// bottom up, where a pruned part is its own digest.
    #[verifier::external_body]
    pub(crate) fn digest(&self) -> (r: [u8; 32])
        ensures
            r@ == digest_of(shape_of(*self)),
    {
        self.inner.digest()
    }

    /// `ic_certification::HashTree::lookup_path` with two labels: the leaf
    /// it finds is one that the tree reveals there, and in an orderly tree
    /// it finds every leaf, and nothing is absent, not just unknown, where
    /// the tree rules it out.
    #[verifier::external_body]
    pub(crate) fn lookup(&self, first: &[u8], second: &[u8]) -> (r: Lookup)
        ensures
            r@ == looked_up(shape_of(*self), first@, second@),
            r@ matches LookupState::Found(v) ==> reveals(
                shape_of(*self),
                two_labels(first@, second@),
                v,
            ),
            r@ !is Found && orderly(shape_of(*self)) ==> forall|v: Seq<u8>|
                !#[trigger] reveals(shape_of(*self), two_labels(first@, second@), v),
            orderly(shape_of(*self)) && rules_out(shape_of(*self), first@, second@) ==> r@ is Absent,
    {
        match self.inner.lookup_path([first, second]) {
            ic_certification::LookupResult::Found(v) => Lookup::Found(v.to_vec()),
            ic_certification::LookupResult::Absent => Lookup::Absent,
            ic_certification::LookupResult::Unknown => Lookup::Unknown,
            ic_certification::LookupResult::Error => Lookup::Error,
        }
    }
}

/// The bytes that self-describing CBOR gives a hash tree.
pub uninterp spec fn tree_cbor(t: Shape) -> Seq<u8>;

/// The hash tree that CBOR bytes hold, or why they hold none.
pub uninterp spec fn tree_in(bytes: Seq<u8>) -> Result<Shape, Seq<char>>;

/// That bytes hold a tree.
pub open spec fn holds_tree(t: Shape) -> Result<Shape, Seq<char>> {
    Ok(t)
}

/// A tree nested no more deeply than the CBOR reader allows: 127 levels, of
/// which the self-describing tag is one.
pub open spec fn readable_depth(t: Shape) -> bool {
    depth(t) <= 126
}

/// `serde_cbor::Serializer` with `self_describe`, on a hash tree. What the
/// bytes are read back as, if they are read at all, is the tree, and those
/// of a tree that is not nested too deeply are read.
#[verifier::external_body]
pub(crate) fn encode_tree(t: &ProofTree) -> (r: Vec<u8>)
    ensures
        r@ == tree_cbor(shape_of(*t)),
        readable_depth(shape_of(*t)) ==> tree_in(r@) == holds_tree(shape_of(*t)),
        tree_in(r@) matches Ok(s) ==> s == shape_of(*t),
{
    let mut ser = serde_cbor::Serializer::new(Vec::new());
    ser.self_describe().expect("cbor self-describe");
    serde::Serialize::serialize(&t.inner, &mut ser).expect("cbor");
    ser.into_inner()
}

/// `serde_cbor::from_slice` into a hash tree, or its error as text: either
/// depends on the bytes alone.
#[verifier::external_body]
pub(crate) fn decode_tree(bytes: &[u8]) -> (r: Result<ProofTree, String>)
    ensures
        told(r) == tree_in(bytes@),
{
    serde_cbor::from_slice(bytes).map(|inner| ProofTree { inner }).map_err(|e| e.to_string())
}

/// The hash tree of the certificate that CBOR bytes hold, or why they hold
/// none.
pub uninterp spec fn certificate_in(bytes: Seq<u8>) -> Result<Shape, Seq<char>>;

/// `serde_cbor::from_slice` into an `ic_certification::Certificate`, of which
/// the tree is kept, or its error as text.
#[verifier::external_body]
pub(crate) fn decode_certificate(bytes: &[u8]) -> (r: Result<ProofTree, String>)
    ensures
        told(r) == certificate_in(bytes@),
{
    let cert: ic_certification::Certificate =
        serde_cbor::from_slice(bytes).map_err(|e| e.to_string())?;
    Ok(ProofTree { inner: cert.tree })
}

/// A path of three labels.
pub open spec fn three_labels(a: Seq<u8>, b: Seq<u8>, c: Seq<u8>) -> Seq<Seq<u8>> {
    seq![a, b, c]
}

/// What `lookup_value` gives for a path of three labels in a tree: the value
/// there, or why it finds none.
pub uninterp spec fn value_at(
    t: Shape,
    first: Seq<u8>,
    second: Seq<u8>,
    third: Seq<u8>,
) -> Result<Seq<u8>, Seq<char>>;

/// `ic_agent::lookup_value`, which reads nothing of a certificate but its
/// tree, with three labels; its error as text. The value it finds is one
/// that the tree reveals there, and in an orderly tree it finds every value.
#[verifier::external_body]
pub(crate) fn lookup_value(t: &ProofTree, first: &[u8], second: &[u8], third: &[u8]) -> (r: Result<
    Vec<u8>,
    String,
>)
    ensures
        told(r) == value_at(shape_of(*t), first@, second@, third@),
        r matches Ok(v) ==> reveals(shape_of(*t), three_labels(first@, second@, third@), v@),
        r is Err && orderly(shape_of(*t)) ==> forall|v: Seq<u8>|
            !#[trigger] reveals(shape_of(*t), three_labels(first@, second@, third@), v),
{
    let tree = t.inner.clone();
    let cert = ic_certification::Certificate { tree, signature: Vec::new(), delegation: None };
    let found = ic_agent::lookup_value(&cert, [first, second, third]);
    found.map(|v| v.to_vec()).map_err(|e| e.to_string())
}

/// `ic_certification::RbTree`, a sorted map that is hashed as a tree.
#[verifier::external_type_specification]
#[verifier::external_body]
#[verifier::reject_recursive_types(K)]
#[verifier::reject_recursive_types(V)]
pub struct ExRbTree<K, V>(RbTree<K, V>);

/// What a red-black tree maps.
pub uninterp spec fn rb_entries(t: RbTree<Vec<u8>, Vec<u8>>) -> Map<Seq<u8>, Seq<u8>>;

/// The hash tree over the entries of a red-black tree.
pub uninterp spec fn rb_shape(t: RbTree<Vec<u8>, Vec<u8>>) -> Shape;

/// `ic_certification::RbTree::new`: a tree without entries.
#[verifier::external_body]
pub(crate) fn rb_new() -> (r: RbTree<Vec<u8>, Vec<u8>>)
    ensures
        rb_entries(r).dom() == Set::<Seq<u8>>::empty(),
{
    RbTree::new()
}

/// `ic_certification::RbTree::insert`: the key now maps to the value, every
/// other key as before.
#[verifier::external_body]
pub(crate) fn rb_insert(t: &mut RbTree<Vec<u8>, Vec<u8>>, key: Vec<u8>, value: Vec<u8>)
    ensures
        rb_entries(*final(t)) == rb_entries(*old(t)).insert(key@, value@),
{
    t.insert(key, value);
}

/// `ic_certification::RbTree::delete`: the key is gone, every other key as
/// before.
#[verifier::external_body]
pub(crate) fn rb_delete(t: &mut RbTree<Vec<u8>, Vec<u8>>, key: &[u8])
    ensures
        rb_entries(*final(t)) == rb_entries(*old(t)).remove(key@),
{
    t.delete(key);
}

/// `root_hash` of an `ic_certification::RbTree`: the digest of its hash
/// tree.
#[verifier::external_body]
pub(crate) fn rb_root(t: &RbTree<Vec<u8>, Vec<u8>>) -> (r: [u8; 32])
    ensures
        r@ == digest_of(rb_shape(*t)),
{
    t.root_hash()
}

/// The part of its hash tree that a red-black tree gives as the witness of
/// a key.
pub uninterp spec fn rb_part(t: RbTree<Vec<u8>, Vec<u8>>, key: Seq<u8>) -> Shape;

/// `ic_certification::RbTree::witness`: a part of the hash tree, whose
/// labels are in the order of the keys. It reveals the value of `key` if
/// there is one, and nothing else. Where there is none it is a proof of
/// absence: it shows the keys next to the missing one, so it excludes it.
#[verifier::external_body]
pub(crate) fn rb_witness(t: &RbTree<Vec<u8>, Vec<u8>>, key: &[u8]) -> (r: ProofTree)
    ensures
        shape_of(r) == rb_part(*t, key@),
        honest_part(shape_of(r), rb_shape(*t)),
        shows_only(shape_of(r), key@, rb_entries(*t)),
        !rb_entries(*t).contains_key(key@) ==> excludes(shape_of(r), key@, false, false),
{
    ProofTree { inner: t.witness(key) }
}

} // verus!
