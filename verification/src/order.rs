//! The display orders of node listings. A thread listing is ordered by
//! freshest reply first; a subtree listing is ordered by the numeric
//! value of each identifier layer in turn, which groups replies under
//! their ancestors in creation order.

use crate::types::views_of;
use crate::types::Node;
use crate::types::NodeV;
use vstd::bytes::spec_u128_from_le_bytes;
use vstd::bytes::u128_from_le_bytes;
use vstd::multiset::Multiset;
use vstd::prelude::*;
use vstd::slice::slice_subrange;

verus! {

broadcast use vstd::seq_lib::group_seq_properties;

/// The layers of an identifier as numeric values, in order. A trailing
/// fragment shorter than one layer is ignored.
pub open spec fn layer_seq(id: Seq<u8>) -> Seq<u128> {
    Seq::new(id.len() / 16, |i: int| spec_u128_from_le_bytes(id.subrange(16 * i, 16 * i + 16)))
}

/// Lexicographic order on layer value sequences; a proper prefix comes
/// first.
pub open spec fn tuples_le(a: Seq<u128>, b: Seq<u128>) -> bool
    decreases a.len(),
{
    if a.len() == 0 {
        true
    } else if b.len() == 0 {
        false
    } else if a[0] < b[0] {
        true
    } else if a[0] > b[0] {
        false
    } else {
        tuples_le(a.drop_first(), b.drop_first())
    }
}

/// The subtree listing order on identifiers.
pub open spec fn id_le(a: Seq<u8>, b: Seq<u8>) -> bool {
    tuples_le(layer_seq(a), layer_seq(b))
}

/// Layer order is total.
pub proof fn lemma_tuples_le_total(a: Seq<u128>, b: Seq<u128>)
    ensures
        tuples_le(a, b) || tuples_le(b, a),
    decreases a.len(),
{
    if a.len() == 0 || b.len() == 0 {
    } else if a[0] == b[0] {
        lemma_tuples_le_total(a.drop_first(), b.drop_first());
    }
}

/// Layer order is reflexive.
pub proof fn lemma_tuples_le_refl(a: Seq<u128>)
    ensures
        tuples_le(a, a),
    decreases a.len(),
{
    if a.len() > 0 {
        lemma_tuples_le_refl(a.drop_first());
    }
}

/// Layer order is transitive.
pub proof fn lemma_tuples_le_trans(a: Seq<u128>, b: Seq<u128>, c: Seq<u128>)
    requires
        tuples_le(a, b),
        tuples_le(b, c),
    ensures
        tuples_le(a, c),
    decreases a.len(),
{
    if a.len() == 0 || b.len() == 0 || c.len() == 0 {
    } else if a[0] == b[0] && b[0] == c[0] {
        lemma_tuples_le_trans(a.drop_first(), b.drop_first(), c.drop_first());
    }
}

/// A listing ordered freshest reply first.
pub open spec fn sorted_by_reply_desc(l: Seq<NodeV>) -> bool {
    forall|i: int, j: int|
        0 <= i < j < l.len() ==> #[trigger] l[i].last_reply >= #[trigger] l[j].last_reply
}

/// A listing in subtree order.
pub open spec fn sorted_by_id(l: Seq<NodeV>) -> bool {
    forall|i: int, j: int| 0 <= i < j < l.len() ==> id_le(#[trigger] l[i].id, #[trigger] l[j].id)
}

/// The views of a sequence shrink with `remove`, element for element.
proof fn lemma_views_remove(l: Seq<Node>, i: int)
    requires
        0 <= i < l.len(),
    ensures
        views_of(l.remove(i)) =~= views_of(l).remove(i),
{
}

/// The views of a sequence grow with `push`, element for element.
proof fn lemma_views_push(l: Seq<Node>, n: Node)
    ensures
        views_of(l.push(n)) =~= views_of(l).push(n@),
{
}

/// Compare two identifiers in subtree order. Both must be whole numbers
/// of layers.
fn id_le_exec(a: &[u8], b: &[u8]) -> (r: bool)
    requires
        a@.len() % 16 == 0,
        b@.len() % 16 == 0,
    ensures
        r == id_le(a@, b@),
{
    let la = a.len() / 16;
    let lb = b.len() / 16;
    let min = if la < lb {
        la
    } else {
        lb
    };
    let ghost ta = layer_seq(a@);
    let ghost tb = layer_seq(b@);
    proof {
        assert(ta.len() == la && tb.len() == lb);
        assert(16 * la == a@.len() && 16 * lb == b@.len());
        assert(ta.skip(0) =~= ta);
        assert(tb.skip(0) =~= tb);
    }
    let mut i: usize = 0;
    while i < min
        invariant
            i <= min,
            min <= la && min <= lb,
            la == a@.len() / 16 && lb == b@.len() / 16,
            16 * la == a@.len() && 16 * lb == b@.len(),
            a@.len() <= usize::MAX && b@.len() <= usize::MAX,
            a@.len() % 16 == 0 && b@.len() % 16 == 0,
            ta == layer_seq(a@) && tb == layer_seq(b@),
            ta.len() == la && tb.len() == lb,
            forall|k: int| 0 <= k < i ==> ta[k] == tb[k],
            tuples_le(ta, tb) == tuples_le(ta.skip(i as int), tb.skip(i as int)),
        decreases min - i,
    {
        proof {
            assert(16 * (i + 1) <= 16 * min);
        }
        let xa = u128_from_le_bytes(slice_subrange(a, 16 * i, 16 * i + 16));
        let xb = u128_from_le_bytes(slice_subrange(b, 16 * i, 16 * i + 16));
        proof {
            assert(ta[i as int] == spec_u128_from_le_bytes(
                a@.subrange(16 * i as int, 16 * i as int + 16),
            ));
            assert(tb[i as int] == spec_u128_from_le_bytes(
                b@.subrange(16 * i as int, 16 * i as int + 16),
            ));
            assert(ta.skip(i as int).len() > 0 && tb.skip(i as int).len() > 0);
            assert(ta.skip(i as int)[0] == ta[i as int]);
            assert(tb.skip(i as int)[0] == tb[i as int]);
        }
        if xa < xb {
            return true;
        }
        if xa > xb {
            return false;
        }
        proof {
            assert(ta.skip(i as int).drop_first() =~= ta.skip(i as int + 1));
            assert(tb.skip(i as int).drop_first() =~= tb.skip(i as int + 1));
        }
        i = i + 1;
    }
    proof {
        if la <= lb {
            assert(ta.skip(min as int).len() == la - min);
        }
        assert(ta.skip(min as int).len() == 0 || tb.skip(min as int).len() == 0);
    }
    la <= lb
}

/// Sort a listing freshest reply first. The result is a permutation of
/// the input.
pub fn sort_by_reply_desc_exec(v: Vec<Node>) -> (r: Vec<Node>)
    ensures
        views_of(r@).to_multiset() == views_of(v@).to_multiset(),
        sorted_by_reply_desc(views_of(r@)),
        r@.len() == v@.len(),
{
    broadcast use vstd::seq_lib::group_to_multiset_ensures;

    let ghost orig = views_of(v@);
    let mut rest = v;
    let mut out: Vec<Node> = Vec::new();
    proof {
        assert(views_of(out@).to_multiset().add(views_of(rest@).to_multiset()) =~= orig.to_multiset());
    }
    while rest.len() > 0
        invariant
            views_of(out@).to_multiset().add(views_of(rest@).to_multiset()) == orig.to_multiset(),
            out@.len() + rest@.len() == orig.len(),
            sorted_by_reply_desc(views_of(out@)),
            forall|i: int, j: int|
                0 <= i < out@.len() && 0 <= j < rest@.len() ==> (#[trigger] out@[i])@.last_reply
                    >= (#[trigger] rest@[j])@.last_reply,
        decreases rest@.len(),
    {
        let n = rest.len();
        let mut m: usize = 0;
        let mut i: usize = 1;
        while i < n
            invariant
                1 <= i <= n,
                m < i,
                n == rest@.len(),
                forall|k: int| 0 <= k < i ==> (#[trigger] rest@[k])@.last_reply
                    <= rest@[m as int]@.last_reply,
            decreases n - i,
        {
            if rest[i].last_reply > rest[m].last_reply {
                m = i;
            }
            i = i + 1;
        }
        let ghost old_out = out@;
        let ghost old_rest = rest@;
        let picked = rest.remove(m);
        out.push(picked);
        proof {
            lemma_views_remove(old_rest, m as int);
            lemma_views_push(old_out, picked);
            let vr = views_of(old_rest);
            assert(views_of(rest@).to_multiset() =~= vr.to_multiset().remove(vr[m as int]));
            assert(views_of(out@).to_multiset() =~= views_of(old_out).to_multiset().insert(
                picked@,
            ));
            assert(vr.to_multiset().count(vr[m as int]) > 0) by {
                assert(vr[m as int] == picked@);
                assert(vr.contains(vr[m as int]));
            }
            assert(views_of(out@).to_multiset().add(views_of(rest@).to_multiset())
                =~= views_of(old_out).to_multiset().add(vr.to_multiset()));
            assert forall|i2: int, j2: int|
                0 <= i2 < out@.len() && 0 <= j2 < rest@.len() implies (#[trigger] out@[i2])@.last_reply
                >= (#[trigger] rest@[j2])@.last_reply by {
                let jj = if j2 < m { j2 } else { j2 + 1 };
                assert(rest@[j2] == old_rest[jj]);
                if i2 < old_out.len() {
                    assert(out@[i2] == old_out[i2]);
                } else {
                    assert(out@[i2] == picked);
                }
            }
            assert(sorted_by_reply_desc(views_of(out@))) by {
                assert(forall|i2: int|
                    0 <= i2 < old_out.len() ==> (#[trigger] views_of(out@)[i2]).last_reply
                        >= picked@.last_reply);
            }
        }
    }
    proof {
        assert(views_of(rest@).to_multiset() =~= Multiset::<NodeV>::empty());
        assert(views_of(out@).to_multiset().add(Multiset::<NodeV>::empty()) =~= views_of(
            out@,
        ).to_multiset());
    }
    out
}

/// Sort a listing into subtree order. Every identifier must be a whole
/// number of layers; the result is a permutation of the input.
pub fn sort_by_id_exec(v: Vec<Node>) -> (r: Vec<Node>)
    requires
        forall|i: int| 0 <= i < v@.len() ==> (#[trigger] v@[i])@.id.len() % 16 == 0,
    ensures
        views_of(r@).to_multiset() == views_of(v@).to_multiset(),
        sorted_by_id(views_of(r@)),
        r@.len() == v@.len(),
{
    broadcast use vstd::seq_lib::group_to_multiset_ensures;

    let ghost orig = views_of(v@);
    let mut rest = v;
    let mut out: Vec<Node> = Vec::new();
    proof {
        assert(views_of(out@).to_multiset().add(views_of(rest@).to_multiset()) =~= orig.to_multiset());
    }
    while rest.len() > 0
        invariant
            views_of(out@).to_multiset().add(views_of(rest@).to_multiset()) == orig.to_multiset(),
            out@.len() + rest@.len() == orig.len(),
            sorted_by_id(views_of(out@)),
            forall|i: int| 0 <= i < rest@.len() ==> (#[trigger] rest@[i])@.id.len() % 16 == 0,
            forall|i: int, j: int|
                0 <= i < out@.len() && 0 <= j < rest@.len() ==> id_le(
                    (#[trigger] out@[i])@.id,
                    (#[trigger] rest@[j])@.id,
                ),
        decreases rest@.len(),
    {
        let n = rest.len();
        let mut m: usize = 0;
        let mut i: usize = 1;
        proof {
            lemma_tuples_le_refl(layer_seq(rest@[0]@.id));
        }
        while i < n
            invariant
                1 <= i <= n,
                m < i,
                n == rest@.len(),
                forall|k: int| 0 <= k < rest@.len() ==> (#[trigger] rest@[k])@.id.len() % 16 == 0,
                forall|k: int| 0 <= k < i ==> id_le(rest@[m as int]@.id, (#[trigger] rest@[k])@.id),
            decreases n - i,
        {
            if id_le_exec(rest[i].id.as_slice(), rest[m].id.as_slice()) {
                proof {
                    assert forall|k: int| 0 <= k < i + 1 implies id_le(
                        rest@[i as int]@.id,
                        (#[trigger] rest@[k])@.id,
                    ) by {
                        if k < i {
                            lemma_tuples_le_trans(
                                layer_seq(rest@[i as int]@.id),
                                layer_seq(rest@[m as int]@.id),
                                layer_seq(rest@[k]@.id),
                            );
                        } else {
                            lemma_tuples_le_refl(layer_seq(rest@[i as int]@.id));
                        }
                    }
                }
                m = i;
            } else {
                proof {
                    lemma_tuples_le_total(
                        layer_seq(rest@[i as int]@.id),
                        layer_seq(rest@[m as int]@.id),
                    );
                }
            }
            i = i + 1;
        }
        let ghost old_out = out@;
        let ghost old_rest = rest@;
        let picked = rest.remove(m);
        out.push(picked);
        proof {
            lemma_views_remove(old_rest, m as int);
            lemma_views_push(old_out, picked);
            let vr = views_of(old_rest);
            assert(views_of(rest@).to_multiset() =~= vr.to_multiset().remove(vr[m as int]));
            assert(views_of(out@).to_multiset() =~= views_of(old_out).to_multiset().insert(
                picked@,
            ));
            assert(vr.to_multiset().count(vr[m as int]) > 0) by {
                assert(vr[m as int] == picked@);
                assert(vr.contains(vr[m as int]));
            }
            assert(views_of(out@).to_multiset().add(views_of(rest@).to_multiset())
                =~= views_of(old_out).to_multiset().add(vr.to_multiset()));
            assert forall|i2: int, j2: int|
                0 <= i2 < out@.len() && 0 <= j2 < rest@.len() implies id_le(
                (#[trigger] out@[i2])@.id,
                (#[trigger] rest@[j2])@.id,
            ) by {
                let jj = if j2 < m { j2 } else { j2 + 1 };
                assert(rest@[j2] == old_rest[jj]);
                if i2 < old_out.len() {
                    assert(out@[i2] == old_out[i2]);
                } else {
                    assert(out@[i2] == picked);
                }
            }
            assert(sorted_by_id(views_of(out@))) by {
                assert(forall|i2: int|
                    0 <= i2 < old_out.len() ==> id_le(
                        (#[trigger] views_of(out@)[i2]).id,
                        picked@.id,
                    ));
            }
        }
    }
    proof {
        assert(views_of(rest@).to_multiset() =~= Multiset::<NodeV>::empty());
        assert(views_of(out@).to_multiset().add(Multiset::<NodeV>::empty()) =~= views_of(
            out@,
        ).to_multiset());
    }
    out
}

} // verus!
