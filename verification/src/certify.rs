//! Certified resolution.
//!
//! A hash tree in memory mirrors the records: key = name, leaf = the
//! record's canonical bytes. Its root, under the label "names", is part of
//! the certified data, so a resolve answer can carry the subnet's
//! certificate and a witness that a verifier checks against the root
//! without trusting the replica that answered.
//!
//! HTTP responses are certified too, with a skip-certification expression:
//! the gateway checks that this canister, not a replica or boundary node,
//! chose to serve the path uncertified. That subtree is static, so certified
//! data is the fork of its digest and the names tree:
//!
//!   fork( labeled("http_expr", labeled("<*>", labeled(sha256(cel), leaf("")))),
//!         labeled("names", <name tree>) )
//!
//! A names witness prunes the left side; an HTTP witness prunes the right.

use ic_certification::RbTree;
use vstd::prelude::*;
use vstd::utf8::*;

use crate::hashtree::{
    digest_of, encode_tree, excludes, fork, fork_hash, holds_tree, labeled, labeled_hash, leaf,
    lemma_excluded_label, lemma_merged_excludes, lemma_merged_prunes, lemma_merged_reveals,
    lemma_prunes_digest, lemma_prunes_orderly, merge, merged, orderly, pruned, prunes, rb_delete,
    rb_entries, rb_insert, rb_new, rb_part, rb_root, rb_shape, rb_witness, readable_depth, reveals,
    rules_out, sha256, sha256_of, shows_only, stands_under, tree_cbor, tree_in, two_labels,
    ProofTree, Shape,
};
use crate::maps::values_in_order;
use crate::order::{lists_texts, texts_in_order};
use crate::record::{canonical_bytes, RecordState};
use crate::store::{canonical_list, for_each_canonical, named_bytes, Store};
use crate::text::{join3, lemma_utf8_injective, pairs, texts};

verus! {

/// Alias chains longer than this fail to resolve.
pub const MAX_ALIAS_DEPTH: usize = 8;

/// The CEL expression that tells the gateway to skip response
/// certification for every path. Sent in IC-CertificateExpression.
pub const SKIP_CEL: &'static str = "default_certification(ValidationArgs{no_certification:Empty{}})";

/// The static subtree for HTTP responses.
pub open spec fn skip_shape() -> Shape {
    Shape::Labeled(
        encode_utf8("http_expr"@),
        Box::new(
            Shape::Labeled(
                encode_utf8("<*>"@),
                Box::new(
                    Shape::Labeled(
                        sha256(encode_utf8(SKIP_CEL@)),
                        Box::new(Shape::Leaf(Seq::empty())),
                    ),
                ),
            ),
        ),
    )
}

/// The static subtree for HTTP responses.
pub fn skip_tree() -> (r: ProofTree)
    ensures
        r@ == skip_shape(),
{
    let cel_hash = sha256_of(SKIP_CEL.as_bytes());
    let none: Vec<u8> = Vec::new();
    assert(none@ =~= Seq::<u8>::empty());
    labeled("http_expr".as_bytes(), labeled("<*>".as_bytes(), labeled(cel_hash.as_slice(), leaf(none))))
}

/// The digest of the static subtree.
pub fn skip_digest() -> (r: [u8; 32])
    ensures
        r@ == digest_of(skip_shape()),
{
    skip_tree().digest()
}

// --- the tree of names --------------------------------------------------------------

/// The hash tree over the records.
pub struct Tree {
    names: RbTree<Vec<u8>, Vec<u8>>,
}

impl View for Tree {
    type V = Map<Seq<u8>, Seq<u8>>;

    closed spec fn view(&self) -> Map<Seq<u8>, Seq<u8>> {
        rb_entries(self.names)
    }
}

impl Tree {
    /// The hash tree under the label "names".
    pub closed spec fn shape(&self) -> Shape {
        rb_shape(self.names)
    }

    /// The witness of one name in the hash tree.
    pub closed spec fn part(&self, name: Seq<char>) -> Shape {
        rb_part(self.names, encode_utf8(name))
    }

    /// A tree without names.
    pub fn new() -> (r: Tree)
        ensures
            r@ == Map::<Seq<u8>, Seq<u8>>::empty(),
    {
        let r = Tree { names: rb_new() };
        assert(r@ =~= Map::<Seq<u8>, Seq<u8>>::empty());
        r
    }
}

/// The tree that is certified: the static HTTP subtree and the names.
pub open spec fn certified(names: Shape) -> Shape {
    Shape::Fork(
        Box::new(skip_shape()),
        Box::new(Shape::Labeled(encode_utf8("names"@), Box::new(names))),
    )
}

/// The digest of the names, under their label.
pub fn names_hash(tree: &Tree) -> (r: [u8; 32])
    ensures
        r@ == digest_of(Shape::Labeled(encode_utf8("names"@), Box::new(tree.shape()))),
{
    labeled_hash("names".as_bytes(), &rb_root(&tree.names))
}

/// The certified data: the digest of the certified tree.
pub fn root_hash(tree: &Tree) -> (r: [u8; 32])
    ensures
        r@ == digest_of(certified(tree.shape())),
{
    fork_hash(&skip_digest(), &names_hash(tree))
}

/// Set the leaf of a name.
pub fn set(tree: &mut Tree, name: &str, canonical: Vec<u8>)
    ensures
        final(tree)@ == old(tree)@.insert(encode_utf8(name@), canonical@),
{
    rb_insert(&mut tree.names, name.as_bytes_vec(), canonical);
}

/// Remove the leaf of a name.
pub fn remove(tree: &mut Tree, name: &str)
    ensures
        final(tree)@ == old(tree)@.remove(encode_utf8(name@)),
{
    rb_delete(&mut tree.names, name.as_bytes());
}

/// The leaves that mirror records: the canonical bytes under every name.
pub open spec fn leaves_of(records: Map<Seq<char>, RecordState>) -> Map<Seq<u8>, Seq<u8>> {
    Map::new(
        |k: Seq<u8>| valid_utf8(k) && records.contains_key(decode_utf8(k)),
        |k: Seq<u8>| canonical_bytes(records[decode_utf8(k)]),
    )
}

/// A key is the name that it encodes.
proof fn lemma_key_name(k: Seq<u8>, n: Seq<char>)
    ensures
        valid_utf8(k) && decode_utf8(k) == n <==> k == encode_utf8(n),
{
    encode_utf8_valid_utf8(n);
    encode_utf8_decode_utf8(n);
    if valid_utf8(k) {
        decode_utf8_encode_utf8(k);
    }
}

/// Writing a record writes its leaf.
pub proof fn lemma_leaves_insert(records: Map<Seq<char>, RecordState>, n: Seq<char>, r: RecordState)
    ensures
        leaves_of(records.insert(n, r)) == leaves_of(records).insert(
            encode_utf8(n),
            canonical_bytes(r),
        ),
{
    let left = leaves_of(records.insert(n, r));
    let right = leaves_of(records).insert(encode_utf8(n), canonical_bytes(r));
    lemma_key_name(encode_utf8(n), n);
    assert forall|k: Seq<u8>| left.dom().contains(k) <==> right.dom().contains(k) by {
        lemma_key_name(k, n);
    }
    assert(left.dom() =~= right.dom());
    assert forall|k: Seq<u8>| #[trigger] left.dom().contains(k) implies left[k] == right[k] by {
        lemma_key_name(k, n);
    }
    assert(left =~= right);
}

/// Removing a record removes its leaf.
pub proof fn lemma_leaves_remove(records: Map<Seq<char>, RecordState>, n: Seq<char>)
    ensures
        leaves_of(records.remove(n)) == leaves_of(records).remove(encode_utf8(n)),
{
    let left = leaves_of(records.remove(n));
    let right = leaves_of(records).remove(encode_utf8(n));
    assert forall|k: Seq<u8>| left.dom().contains(k) <==> right.dom().contains(k) by {
        lemma_key_name(k, n);
    }
    assert(left.dom() =~= right.dom());
    assert forall|k: Seq<u8>| #[trigger] left.dom().contains(k) implies left[k] == right[k] by {
        lemma_key_name(k, n);
    }
    assert(left =~= right);
}

/// The tree over records, from their names in order and their certified
/// forms.
pub(crate) fn tree_over(
    pairs: &Vec<(String, Vec<u8>)>,
    records: Ghost<Map<Seq<char>, RecordState>>,
) -> (r: Tree)
    requires
        lists_texts(texts_in_order(records@.dom()), records@.dom()),
        pairs@.len() == texts_in_order(records@.dom()).len(),
        forall|i: int|
            0 <= i < pairs@.len() ==> (#[trigger] pairs@[i]).0@ == texts_in_order(records@.dom())[i]
                && pairs@[i].1@ == canonical_bytes(records@[pairs@[i].0@]),
    ensures
        r@ == leaves_of(records@),
{
    let ghost all = records@;
    let ghost names = texts_in_order(all.dom());
    let mut fresh = Tree::new();
    let mut i: usize = 0;
    let ghost mut done = Map::<Seq<char>, RecordState>::empty();
    assert(leaves_of(done) =~= Map::<Seq<u8>, Seq<u8>>::empty());
    while i < pairs.len()
        invariant
            i <= pairs@.len(),
            names == texts_in_order(all.dom()),
            lists_texts(names, all.dom()),
            pairs@.len() == names.len(),
            forall|j: int|
                0 <= j < pairs@.len() ==> (#[trigger] pairs@[j]).0@ == names[j] && pairs@[j].1@
                    == canonical_bytes(all[pairs@[j].0@]),
            fresh@ == leaves_of(done),
            forall|n: Seq<char>| #[trigger]
                done.contains_key(n) ==> all.contains_key(n) && done[n] == all[n],
            forall|j: int| 0 <= j < i ==> done.contains_key(#[trigger] names[j]),
        decreases pairs.len() - i,
    {
        let ghost n = names[i as int];
        proof {
            assert(pairs@[i as int].0@ == n);
            assert(all.dom().contains(n));
            assert(all.contains_key(n));
            lemma_leaves_insert(done, n, all[n]);
        }
        let value = vstd::slice::slice_to_vec(pairs[i].1.as_slice());
        set(&mut fresh, pairs[i].0.as_str(), value);
        proof {
            done = done.insert(n, all[n]);
        }
        i += 1;
    }
    proof {
        assert forall|n: Seq<char>| #[trigger] all.dom().contains(n) implies done.dom().contains(
            n,
        ) by {
            assert(names.contains(n));
            let j = choose|j: int| 0 <= j < names.len() && names[j] == n;
            assert(done.contains_key(names[j]));
        }
        assert forall|n: Seq<char>| #[trigger] done.dom().contains(n) implies all.dom().contains(n)
            && done[n] == all[n] by {
            assert(done.contains_key(n));
        }
        assert(done.dom() =~= all.dom());
        assert(done =~= all);
    }
    fresh
}

/// Drop the tree and refill it from the records.
pub fn rebuild(tree: &mut Tree, store: &Store)
    ensures
        final(tree)@ == leaves_of(store@.records),
{
    let pairs = for_each_canonical(store);
    store.records.facts();
    let keys = store.records.keys();
    let ghost records = store@.records;
    let ghost names = texts_in_order(records.dom());
    proof {
        let all = canonical_list(values_in_order(records));
        assert(named_bytes(pairs@).len() == pairs@.len());
        assert(all.len() == names.len());
        assert forall|i: int| 0 <= i < pairs@.len() implies (#[trigger] pairs@[i]).0@ == names[i]
            && pairs@[i].1@ == canonical_bytes(records[pairs@[i].0@]) by {
            let n = names[i];
            assert(named_bytes(pairs@)[i] == (pairs@[i].0@, pairs@[i].1@));
            assert(records.dom().contains(n));
            assert(records.contains_key(n));
            assert(values_in_order(records)[i] == records[n]);
            assert(all[i] == (records[n].name, canonical_bytes(records[n])));
        }
    }
    *tree = tree_over(&pairs, Ghost(records));
}

// --- witnesses ----------------------------------------------------------------------

/// The parts of the names tree that show the given names, joined in order;
/// the whole tree pruned where there are none.
pub open spec fn names_part(tree: Tree, names: Seq<Seq<char>>) -> Shape
    decreases names.len(),
{
    if names.len() == 0 {
        Shape::Pruned(digest_of(tree.shape()))
    } else if names.len() == 1 {
        tree.part(names[0])
    } else {
        merged(names_part(tree, names.drop_last()), tree.part(names.last()))
    }
}

/// The witness tree of some names: the HTTP side pruned, and the part of
/// the names tree that shows them.
pub open spec fn witness_shape(tree: Tree, names: Seq<Seq<char>>) -> Shape {
    Shape::Fork(
        Box::new(Shape::Pruned(digest_of(skip_shape()))),
        Box::new(Shape::Labeled(encode_utf8("names"@), Box::new(names_part(tree, names)))),
    )
}

/// What every part of the names tree is: a part of the whole, in order.
pub open spec fn sound_part(part: Shape, tree: Tree) -> bool {
    prunes(part, tree.shape()) && orderly(part)
}

/// Whether a part of the names tree reveals exactly the entries of some
/// names.
pub open spec fn shows_names(part: Shape, tree: Tree, names: Seq<Seq<char>>) -> bool {
    forall|path: Seq<Seq<u8>>, v: Seq<u8>| #[trigger]
        reveals(part, path, v) <==> exists|i: int|
            0 <= i < names.len() && shows_name(#[trigger] names[i], path, v, tree@)
}

/// Whether a path and a value are those of a name's entry.
pub open spec fn shows_name(
    name: Seq<char>,
    path: Seq<Seq<u8>>,
    v: Seq<u8>,
    entries: Map<Seq<u8>, Seq<u8>>,
) -> bool {
    path == seq![encode_utf8(name)] && entries.contains_key(encode_utf8(name)) && v
        == entries[encode_utf8(name)]
}

/// Whether a part of the names tree excludes every given name that has no
/// entry.
pub open spec fn shows_absent(part: Shape, tree: Tree, names: Seq<Seq<char>>) -> bool {
    forall|i: int|
        0 <= i < names.len() && !tree@.contains_key(encode_utf8(#[trigger] names[i])) ==> excludes(
            part,
            encode_utf8(names[i]),
            false,
            false,
        )
}

/// The part of the names tree that shows the given names.
fn part_of(tree: &Tree, names: &Vec<String>) -> (r: ProofTree)
    ensures
        r@ == names_part(*tree, texts(names@)),
        sound_part(r@, *tree),
        shows_names(r@, *tree, texts(names@)),
        shows_absent(r@, *tree, texts(names@)),
{
    let ghost all = texts(names@);
    if names.len() == 0 {
        let r = pruned(rb_root(&tree.names));
        return r;
    }
    let mut acc = rb_witness(&tree.names, names[0].as_str().as_bytes());
    let mut i: usize = 1;
    proof {
        assert(all[0] == names@[0]@);
        assert(all.take(1) =~= seq![all[0]]);
        lemma_prunes_orderly(acc@, tree.shape());
        assert(shows_names(acc@, *tree, all.take(1))) by {
            let key = encode_utf8(all[0]);
            assert(shows_only(acc@, key, tree@));
            assert forall|path: Seq<Seq<u8>>, v: Seq<u8>| #[trigger]
                reveals(acc@, path, v) <==> exists|i: int|
                    0 <= i < all.take(1).len() && shows_name(
                        #[trigger] all.take(1)[i],
                        path,
                        v,
                        tree@,
                    ) by {
                if reveals(acc@, path, v) {
                    assert(shows_name(all.take(1)[0], path, v, tree@));
                }
            }
        }
    }
    while i < names.len()
        invariant
            1 <= i <= names@.len(),
            all == texts(names@),
            acc@ == names_part(*tree, all.take(i as int)),
            sound_part(acc@, *tree),
            crate::hashtree::orderly(tree.shape()),
            shows_names(acc@, *tree, all.take(i as int)),
            shows_absent(acc@, *tree, all.take(i as int)),
        decreases names.len() - i,
    {
        let w = rb_witness(&tree.names, names[i].as_str().as_bytes());
        let ghost a = acc@;
        let ghost b = w@;
        let ghost now = all.take(i as int);
        let ghost next = all.take(i + 1);
        assert(prunes(a, tree.shape()) && prunes(b, tree.shape()));
        acc = merge(acc, w);
        proof {
            assert(next.drop_last() =~= now);
            assert(next.last() == names@[i as int]@);
            lemma_merged_prunes(a, b, tree.shape());
            lemma_prunes_orderly(acc@, tree.shape());
            assert forall|k: int|
                0 <= k < next.len() && !tree@.contains_key(
                    encode_utf8(#[trigger] next[k]),
                ) implies excludes(acc@, encode_utf8(next[k]), false, false) by {
                let key = encode_utf8(next[k]);
                if k < i {
                    assert(now[k] == next[k]);
                    lemma_excluded_label(a, tree.shape(), key, false, false);
                } else {
                    lemma_excluded_label(b, tree.shape(), key, false, false);
                }
                lemma_merged_excludes(a, b, tree.shape(), key, false, false);
            }
            assert forall|path: Seq<Seq<u8>>, v: Seq<u8>| #[trigger]
                reveals(acc@, path, v) <==> exists|k: int|
                    0 <= k < next.len() && shows_name(#[trigger] next[k], path, v, tree@) by {
                lemma_merged_reveals(a, b, tree.shape(), path, v);
                assert(shows_only(b, encode_utf8(next.last()), tree@));
                if reveals(b, path, v) {
                    assert(shows_name(next[i as int], path, v, tree@));
                }
                if reveals(a, path, v) {
                    let k = choose|k: int|
                        0 <= k < now.len() && shows_name(#[trigger] now[k], path, v, tree@);
                    assert(next[k] == now[k]);
                }
                if exists|k: int|
                    0 <= k < next.len() && shows_name(#[trigger] next[k], path, v, tree@) {
                    let k = choose|k: int|
                        0 <= k < next.len() && shows_name(#[trigger] next[k], path, v, tree@);
                    if k < i {
                        assert(now[k] == next[k]);
                    } else {
                        assert(reveals(b, path, v));
                    }
                }
            }
        }
        i += 1;
    }
    assert(all.take(i as int) =~= all);
    acc
}

/// Whether a tree is a witness of some names: it has the certified digest,
/// a lookup searches it in full, it reveals exactly their leaves, and it
/// rules out those that have none.
pub open spec fn is_witness(t: Shape, tree: Tree, names: Seq<Seq<char>>) -> bool {
    &&& digest_of(t) == digest_of(certified(tree.shape()))
    &&& orderly(t)
    &&& forall|i: int|
        0 <= i < names.len() && tree@.contains_key(encode_utf8(#[trigger] names[i])) ==> reveals(
            t,
            two_labels(encode_utf8("names"@), encode_utf8(names[i])),
            tree@[encode_utf8(names[i])],
        )
    &&& forall|i: int|
        0 <= i < names.len() && !tree@.contains_key(encode_utf8(#[trigger] names[i])) ==> rules_out(
            t,
            encode_utf8("names"@),
            encode_utf8(names[i]),
        )
    &&& forall|path: Seq<Seq<u8>>, v: Seq<u8>| #[trigger]
        reveals(t, path, v) ==> exists|i: int|
            #![trigger names[i]]
            0 <= i < names.len() && path == two_labels(
                encode_utf8("names"@),
                encode_utf8(names[i]),
            ) && tree@.contains_key(encode_utf8(names[i])) && v == tree@[encode_utf8(names[i])]
}

/// A sound part that shows exactly some names makes a witness of them.
proof fn lemma_is_witness(tree: Tree, names: Seq<Seq<char>>)
    requires
        sound_part(names_part(tree, names), tree),
        shows_names(names_part(tree, names), tree, names),
        shows_absent(names_part(tree, names), tree, names),
    ensures
        is_witness(witness_shape(tree, names), tree, names),
{
    let part = names_part(tree, names);
    let t = witness_shape(tree, names);
    let label = encode_utf8("names"@);
    let right = Shape::Labeled(label, Box::new(part));
    let left = Shape::Pruned(digest_of(skip_shape()));
    lemma_prunes_digest(part, tree.shape());
    reveal_with_fuel(digest_of, 3);
    reveal_with_fuel(orderly, 3);
    reveal_with_fuel(reveals, 3);
    assert(digest_of(t) == digest_of(certified(tree.shape())));
    assert(orderly(right));
    assert(crate::hashtree::labels_before(left, right)) by {
        reveal_with_fuel(crate::hashtree::has_label, 2);
    }
    assert(orderly(t));
    assert(stands_under(t, label, part)) by {
        reveal_with_fuel(stands_under, 2);
    }
    assert forall|path: Seq<Seq<u8>>, v: Seq<u8>| #[trigger] reveals(t, path, v) implies exists|
        i: int,
    |
        #![trigger names[i]]
        0 <= i < names.len() && path == two_labels(label, encode_utf8(names[i]))
            && tree@.contains_key(encode_utf8(names[i])) && v == tree@[encode_utf8(names[i])] by {
        assert(reveals(right, path, v));
        assert(reveals(part, path.drop_first(), v));
        let i = choose|i: int|
            0 <= i < names.len() && shows_name(#[trigger] names[i], path.drop_first(), v, tree@);
        assert(path =~= seq![path[0]] + path.drop_first());
        assert(path =~= two_labels(label, encode_utf8(names[i])));
    }
    assert forall|i: int|
        0 <= i < names.len() && tree@.contains_key(
            encode_utf8(#[trigger] names[i]),
        ) implies reveals(
        t,
        two_labels(label, encode_utf8(names[i])),
        tree@[encode_utf8(names[i])],
    ) by {
        let path = two_labels(label, encode_utf8(names[i]));
        let v = tree@[encode_utf8(names[i])];
        assert(path.drop_first() =~= seq![encode_utf8(names[i])]);
        assert(shows_name(names[i], path.drop_first(), v, tree@));
        assert(reveals(part, path.drop_first(), v));
        assert(reveals(right, path, v));
    }
}

/// The tree of a witness covering every name in `names`. With no names it
/// is fully pruned, never the whole map.
pub fn witness_tree(tree: &Tree, names: &Vec<String>) -> (r: ProofTree)
    ensures
        r@ == witness_shape(*tree, texts(names@)),
        is_witness(r@, *tree, texts(names@)),
{
    let part = part_of(tree, names);
    proof {
        lemma_is_witness(*tree, texts(names@));
    }
    fork(pruned(skip_digest()), labeled("names".as_bytes(), part))
}

/// A witness covering every name in `names`, wrapped under the label, as
/// self-describing CBOR. Whoever decodes it, however deep it is, has a
/// witness of the names in hand.
pub fn witness(tree: &Tree, names: &Vec<String>) -> (r: Vec<u8>)
    ensures
        r@ == tree_cbor(witness_shape(*tree, texts(names@))),
        readable_depth(witness_shape(*tree, texts(names@))) ==> tree_in(r@) == holds_tree(
            witness_shape(*tree, texts(names@)),
        ),
        tree_in(r@) matches Ok(w) ==> w == witness_shape(*tree, texts(names@)) && is_witness(
            w,
            *tree,
            texts(names@),
        ),
        is_witness(witness_shape(*tree, texts(names@)), *tree, texts(names@)),
{
    let t = witness_tree(tree, names);
    encode_tree(&t)
}

// --- HTTP headers -------------------------------------------------------------------

/// The bytes that self-describing CBOR gives a list of texts.
pub uninterp spec fn path_cbor(path: Seq<Seq<char>>) -> Seq<u8>;

/// `serde_cbor::Serializer` with `self_describe`, on a list of strings. That
/// the bytes depend on the strings alone is all that is claimed of them.
#[verifier::external_body]
fn encode_path(path: &Vec<String>) -> (r: Vec<u8>)
    ensures
        r@ == path_cbor(texts(path@)),
{
    let mut ser = serde_cbor::Serializer::new(Vec::new());
    ser.self_describe().expect("cbor self-describe");
    serde::Serialize::serialize(path, &mut ser).expect("cbor");
    ser.into_inner()
}

/// Bytes in standard base64.
pub uninterp spec fn base64_text(bytes: Seq<u8>) -> Seq<char>;

/// `base64::engine::general_purpose::STANDARD.encode`. That the text depends
/// on the bytes alone is all that is claimed of it.
#[verifier::external_body]
pub(crate) fn base64_of(bytes: &[u8]) -> (r: String)
    ensures
        r@ == base64_text(bytes@),
{
    base64::Engine::encode(&base64::engine::general_purpose::STANDARD, bytes)
}

/// The tree of the HTTP witness: the static subtree in full, the names
/// pruned to their hash.
pub open spec fn http_shape(names: Shape) -> Shape {
    Shape::Fork(
        Box::new(skip_shape()),
        Box::new(
            Shape::Pruned(
                digest_of(Shape::Labeled(encode_utf8("names"@), Box::new(names))),
            ),
        ),
    )
}

/// The HTTP witness as a tree.
pub fn http_tree(tree: &Tree) -> (r: ProofTree)
    ensures
        r@ == http_shape(tree.shape()),
{
    fork(skip_tree(), pruned(names_hash(tree)))
}

/// The value of the IC-Certificate header.
pub open spec fn certificate_header(certificate: Seq<u8>, names: Shape) -> Seq<char> {
    "certificate=:"@ + base64_text(certificate) + ":, tree=:"@ + base64_text(
        tree_cbor(http_shape(names)),
    ) + ":, expr_path=:"@ + base64_text(path_cbor(seq!["http_expr"@, "<*>"@])) + ":, version=2"@
}

/// The two headers of a certified response.
pub open spec fn http_header_list(certificate: Seq<u8>, names: Shape) -> Seq<
    (Seq<char>, Seq<char>),
> {
    seq![
        ("IC-Certificate"@, certificate_header(certificate, names)),
        ("IC-CertificateExpression"@, SKIP_CEL@),
    ]
}

/// The two headers that make a query response acceptable to a verifying
/// HTTP gateway: the certificate over the certified data and a witness
/// whose left side is the whole (static) HTTP subtree and whose right side
/// is the names tree pruned to its hash. None where there is no certificate
/// to give.
pub fn http_headers(tree: &Tree, certificate: &Option<Vec<u8>>) -> (r: Option<Vec<(String, String)>>)
    ensures
        r is Some <==> certificate is Some,
        r matches Some(h) ==> pairs(h@) == http_header_list(certificate->0@, tree.shape()),
{
    let certificate = match certificate {
        Some(c) => c,
        None => {
            return None;
        },
    };
    let witness = http_tree(tree);
    let path: Vec<String> = vec!["http_expr".to_string(), "<*>".to_string()];
    assert(texts(path@) =~= seq!["http_expr"@, "<*>"@]);
    let mut value = join3(
        "certificate=:",
        base64_of(certificate.as_slice()).as_str(),
        ":, tree=:",
    );
    value.append(base64_of(encode_tree(&witness).as_slice()).as_str());
    value.append(":, expr_path=:");
    value.append(base64_of(encode_path(&path).as_slice()).as_str());
    value.append(":, version=2");
    let h: Vec<(String, String)> = vec![
        ("IC-Certificate".to_string(), value),
        ("IC-CertificateExpression".to_string(), SKIP_CEL.to_string()),
    ];
    assert(pairs(h@) =~= http_header_list(certificate@, tree.shape()));
    Some(h)
}

/// A witness tells every asked name apart: one that has an entry is revealed
/// with it, one that has none is ruled out, and nothing else is revealed.
pub proof fn law_witness_settles_every_name(
    t: Shape,
    tree: Tree,
    names: Seq<Seq<char>>,
    name: Seq<char>,
    value: Seq<u8>,
)
    requires
        is_witness(t, tree, names),
    ensures
        ({
            let (label, key) = (encode_utf8("names"@), encode_utf8(name));
            let held = tree@.contains_key(key) && tree@[key] == value;
            &&& reveals(t, two_labels(label, key), value) <==> names.contains(name) && held
            &&& names.contains(name) && !tree@.contains_key(key) ==> rules_out(t, label, key)
        }),
{
    let (label, key) = (encode_utf8("names"@), encode_utf8(name));
    let path = two_labels(label, key);
    if names.contains(name) {
        let i = choose|i: int| 0 <= i < names.len() && names[i] == name;
        assert(names[i] == name);
    }
    if reveals(t, path, value) {
        let i = choose|i: int|
            #![trigger names[i]]
            0 <= i < names.len() && path == two_labels(label, encode_utf8(names[i]))
                && tree@.contains_key(encode_utf8(names[i])) && value == tree@[encode_utf8(
                names[i],
            )];
        assert(path[1] == key);
        lemma_utf8_injective(name, names[i]);
    }
}

/// A witness of no names reveals nothing at all and still has the certified
/// digest.
pub proof fn law_witness_of_no_names_reveals_nothing(t: Shape, tree: Tree)
    requires
        is_witness(t, tree, Seq::empty()),
    ensures
        digest_of(t) == digest_of(certified(tree.shape())),
        forall|path: Seq<Seq<u8>>, v: Seq<u8>| !#[trigger] reveals(t, path, v),
{
}

/// The HTTP witness and every names witness digest to the certified root.
pub proof fn law_witnesses_share_the_root(tree: Tree)
    ensures
        digest_of(http_shape(tree.shape())) == digest_of(certified(tree.shape())),
        reveals(
            http_shape(tree.shape()),
            seq![encode_utf8("http_expr"@), encode_utf8("<*>"@), sha256(encode_utf8(SKIP_CEL@))],
            Seq::empty(),
        ),
{
    reveal_with_fuel(digest_of, 3);
    reveal_with_fuel(reveals, 6);
    let path = seq![
        encode_utf8("http_expr"@),
        encode_utf8("<*>"@),
        sha256(encode_utf8(SKIP_CEL@)),
    ];
    assert(path.drop_first() =~= seq![encode_utf8("<*>"@), sha256(encode_utf8(SKIP_CEL@))]);
    assert(path.drop_first().drop_first() =~= seq![sha256(encode_utf8(SKIP_CEL@))]);
    assert(path.drop_first().drop_first().drop_first() =~= Seq::<Seq<u8>>::empty());
    assert(reveals(skip_shape(), path, Seq::empty()));
}

/// A certified response says with which expression it is to be checked, and
/// carries the certificate and the tree that shows that expression.
pub proof fn law_certified_responses_skip_bodies(certificate: Seq<u8>, names: Shape)
    ensures
        ({
            let headers = http_header_list(certificate, names);
            &&& headers.len() == 2
            &&& headers[0].0 == "IC-Certificate"@
            &&& headers[0].1 == "certificate=:"@ + base64_text(certificate) + ":, tree=:"@
                + base64_text(tree_cbor(http_shape(names))) + ":, expr_path=:"@ + base64_text(
                path_cbor(seq!["http_expr"@, "<*>"@]),
            ) + ":, version=2"@
            &&& headers[1] == (
                "IC-CertificateExpression"@,
                "default_certification(ValidationArgs{no_certification:Empty{}})"@,
            )
        }),
{
}

} // verus!
