//! Map entries: insertion in ascending key order, and the facts about
//! [`sorted_insert`] that the decoder and the map methods rely on.

use vstd::prelude::*;
use vstd::utf8::{encode_utf8, valid_utf8};
use crate::frame::{
    frame_view, keys_sorted, lemma_entries_wf, lemma_pair_views_of,
    pair_views_of, sorted_insert, FrameView, RespFrame, RespMap,
};
use crate::order::{
    bytes_cmp, lemma_lex_lt_asym, lemma_lex_lt_connex, lemma_lex_lt_irrefl,
    lemma_lex_lt_trans, lex_lt, KeyOrder,
};

verus! {

/// `x` is one of the keys of `ps`.
pub open spec fn key_of(ps: Seq<(Seq<u8>, FrameView)>, x: Seq<u8>) -> bool {
    exists|l: int| 0 <= l < ps.len() && ps[l].0 == x
}

/// Where the new entry lands: before the first key not smaller than `k`,
/// replacing it if it equals `k`.
pub proof fn lemma_sorted_insert_split(
    ps: Seq<(Seq<u8>, FrameView)>,
    k: Seq<u8>,
    v: FrameView,
    i: int,
)
    requires
        0 <= i <= ps.len(),
        forall|j: int| 0 <= j < i ==> lex_lt(#[trigger] ps[j].0, k),
        i < ps.len() ==> !lex_lt(ps[i].0, k),
    ensures
        i < ps.len() && ps[i].0 == k ==> sorted_insert(ps, k, v) == ps.take(
            i,
        ) + seq![(k, v)] + ps.skip(i + 1),
        !(i < ps.len() && ps[i].0 == k) ==> sorted_insert(ps, k, v)
            == ps.take(i) + seq![(k, v)] + ps.skip(i),
    decreases i,
{
    if i == 0 {
        if ps.len() == 0 {
            assert(sorted_insert(ps, k, v) =~= ps.take(0) + seq![(k, v)]
                + ps.skip(0));
        } else if lex_lt(k, ps[0].0) {
            lemma_lex_lt_irrefl(k);
            assert(ps[0].0 != k);
            assert(sorted_insert(ps, k, v) =~= ps.take(0) + seq![(k, v)]
                + ps.skip(0));
        } else if k == ps[0].0 {
            assert(sorted_insert(ps, k, v) =~= ps.take(0) + seq![(k, v)]
                + ps.skip(1));
        } else {
            lemma_lex_lt_connex(k, ps[0].0);
            assert(false);
        }
    } else {
        assert(lex_lt(ps[0].0, k));
        lemma_lex_lt_asym(ps[0].0, k);
        let tail = ps.drop_first();
        assert forall|j: int| 0 <= j < i - 1 implies lex_lt(
            #[trigger] tail[j].0,
            k,
        ) by {
            assert(tail[j] == ps[j + 1]);
        }
        assert(i - 1 < tail.len() ==> !lex_lt(tail[i - 1].0, k)) by {
            if i - 1 < tail.len() {
                assert(tail[i - 1] == ps[i]);
            }
        }
        lemma_sorted_insert_split(tail, k, v, i - 1);
        assert(sorted_insert(ps, k, v) == seq![ps[0]] + sorted_insert(
            tail,
            k,
            v,
        ));
        if i < ps.len() && ps[i].0 == k {
            assert(tail[i - 1] == ps[i]);
            assert(seq![ps[0]] + (tail.take(i - 1) + seq![(k, v)] + tail.skip(
                i,
            )) =~= ps.take(i) + seq![(k, v)] + ps.skip(i + 1));
        } else {
            assert(seq![ps[0]] + (tail.take(i - 1) + seq![(k, v)] + tail.skip(
                i - 1,
            )) =~= ps.take(i) + seq![(k, v)] + ps.skip(i));
        }
    }
}

/// Insertion keeps the map well formed, keeps every key of the input,
/// and adds the new key.
#[verifier::rlimit(50)]
pub proof fn lemma_sorted_insert_wf(
    ps: Seq<(Seq<u8>, FrameView)>,
    k: Seq<u8>,
    v: FrameView,
)
    requires
        FrameView::MapFrame(ps).wf(),
        valid_utf8(k),
        v.wf(),
    ensures
        FrameView::MapFrame(sorted_insert(ps, k, v)).wf(),
        forall|j: int|
            0 <= j < sorted_insert(ps, k, v).len() ==> #[trigger] sorted_insert(
                ps,
                k,
                v,
            )[j].0 == k || key_of(ps, sorted_insert(ps, k, v)[j].0),
    decreases ps.len(),
{
    let r = sorted_insert(ps, k, v);
    proof_entries(ps);
    if ps.len() == 0 {
        assert(r =~= seq![(k, v)]);
        proof_entries_back(r);
    } else if lex_lt(k, ps[0].0) {
        assert(r == seq![(k, v)] + ps);
        assert forall|a: int, b: int| 0 <= a < b < r.len() implies lex_lt(
            #[trigger] r[a].0,
            #[trigger] r[b].0,
        ) by {
            if a == 0 {
                assert(r[b] == ps[b - 1]);
                if b == 1 {
                    assert(lex_lt(k, ps[0].0));
                } else {
                    assert(lex_lt(ps[0].0, ps[b - 1].0));
                    lemma_lex_lt_trans(k, ps[0].0, ps[b - 1].0);
                }
            } else {
                assert(r[a] == ps[a - 1] && r[b] == ps[b - 1]);
            }
        }
        assert forall|j: int| 0 <= j < r.len() implies #[trigger] r[j].0 == k
            || key_of(ps, r[j].0) by {
            if j > 0 {
                assert(ps[j - 1].0 == r[j].0);
            }
        }
        assert forall|j: int| 0 <= j < r.len() implies valid_utf8(
            #[trigger] r[j].0,
        ) && r[j].1.wf() by {
            if j > 0 {
                assert(r[j] == ps[j - 1]);
            }
        }
        proof_entries_back(r);
    } else if k == ps[0].0 {
        assert(r == seq![(k, v)] + ps.drop_first());
        assert forall|a: int, b: int| 0 <= a < b < r.len() implies lex_lt(
            #[trigger] r[a].0,
            #[trigger] r[b].0,
        ) by {
            if a == 0 {
                assert(r[b] == ps[b]);
                assert(lex_lt(ps[0].0, ps[b].0));
            } else {
                assert(r[a] == ps[a] && r[b] == ps[b]);
            }
        }
        assert forall|j: int| 0 <= j < r.len() implies #[trigger] r[j].0 == k
            || key_of(ps, r[j].0) by {
            if j > 0 {
                assert(ps[j].0 == r[j].0);
            }
        }
        assert forall|j: int| 0 <= j < r.len() implies valid_utf8(
            #[trigger] r[j].0,
        ) && r[j].1.wf() by {
            if j > 0 {
                assert(r[j] == ps[j]);
            }
        }
        proof_entries_back(r);
    } else {
        lemma_lex_lt_connex(k, ps[0].0);
        assert(lex_lt(ps[0].0, k));
        let tail = ps.drop_first();
        assert(FrameView::MapFrame(tail).wf()) by {
            assert forall|j: int| 0 <= j < tail.len() implies valid_utf8(
                #[trigger] tail[j].0,
            ) && tail[j].1.wf() by {
                assert(tail[j] == ps[j + 1]);
            }
            proof_entries_back(tail);
        }
        lemma_sorted_insert_wf(tail, k, v);
        let rt = sorted_insert(tail, k, v);
        assert(r == seq![ps[0]] + rt);
        assert forall|a: int, b: int| 0 <= a < b < r.len() implies lex_lt(
            #[trigger] r[a].0,
            #[trigger] r[b].0,
        ) by {
            if a == 0 {
                assert(r[b] == rt[b - 1]);
                if rt[b - 1].0 == k {
                    assert(lex_lt(ps[0].0, k));
                } else {
                    assert(key_of(tail, rt[b - 1].0));
                    let l = choose|l: int|
                        0 <= l < tail.len() && tail[l].0 == rt[b - 1].0;
                    assert(tail[l] == ps[l + 1]);
                    assert(lex_lt(ps[0].0, ps[l + 1].0));
                }
            } else {
                assert(r[a] == rt[a - 1] && r[b] == rt[b - 1]);
            }
        }
        assert forall|j: int| 0 <= j < r.len() implies #[trigger] r[j].0 == k
            || key_of(ps, r[j].0) by {
            if j == 0 {
                assert(ps[0].0 == r[j].0);
            } else {
                assert(r[j] == rt[j - 1]);
                if rt[j - 1].0 != k {
                    let l = choose|l: int|
                        0 <= l < tail.len() && tail[l].0 == rt[j - 1].0;
                    assert(ps[l + 1].0 == r[j].0);
                }
            }
        }
        proof_entries(rt);
        assert forall|j: int| 0 <= j < r.len() implies valid_utf8(
            #[trigger] r[j].0,
        ) && r[j].1.wf() by {
            if j > 0 {
                assert(r[j] == rt[j - 1]);
                assert(valid_utf8(rt[j - 1].0) && rt[j - 1].1.wf());
            } else {
                assert(r[j] == ps[0]);
                assert(valid_utf8(ps[0].0) && ps[0].1.wf());
            }
        }
        assert(crate::frame::entries_wf(r)) by {
            proof_entries_back(r);
        }
        assert(keys_sorted(r));
        assert(FrameView::MapFrame(r).wf());
    }
}

/// Unpacks [`entries_wf`] into per-entry facts.
proof fn proof_entries(ps: Seq<(Seq<u8>, FrameView)>)
    requires
        crate::frame::entries_wf(ps),
    ensures
        forall|i: int|
            0 <= i < ps.len() ==> valid_utf8(#[trigger] ps[i].0)
                && ps[i].1.wf(),
{
    lemma_entries_wf(ps);
}

/// Packs per-entry facts into [`entries_wf`].
proof fn proof_entries_back(ps: Seq<(Seq<u8>, FrameView)>)
    requires
        forall|i: int|
            0 <= i < ps.len() ==> valid_utf8(#[trigger] ps[i].0)
                && ps[i].1.wf(),
    ensures
        crate::frame::entries_wf(ps),
{
    lemma_entries_wf(ps);
}

/// Compares the key of entry `i` with `k`.
fn entry_cmp(v: &Vec<(String, RespFrame)>, i: usize, k: &String) -> (o:
    KeyOrder)
    requires
        i < v@.len(),
    ensures
        o == KeyOrder::Less <==> lex_lt(
            encode_utf8(v@[i as int].0@),
            encode_utf8(k@),
        ),
        o == KeyOrder::Equal <==> encode_utf8(v@[i as int].0@) == encode_utf8(
            k@,
        ),
{
    bytes_cmp(v[i].0.as_str().as_bytes(), k.as_str().as_bytes())
}

/// Inserts `(k, val)` into an entry vector, keeping ascending key order;
/// an entry with an equal key is overwritten.
#[verifier::loop_isolation(false)]
pub(crate) fn insert_pair(
    v: &mut Vec<(String, RespFrame)>,
    k: String,
    val: RespFrame,
)
    ensures
        pair_views_of(final(v)@) == sorted_insert(
            pair_views_of(old(v)@),
            encode_utf8(k@),
            frame_view(val),
        ),
{
    let ghost pv = pair_views_of(old(v)@);
    let ghost kb = encode_utf8(k@);
    proof {
        lemma_pair_views_of(old(v)@);
    }
    let mut i: usize = 0;
    while i < v.len() && matches!(entry_cmp(v, i, &k), KeyOrder::Less)
        invariant
            v@ == old(v)@,
            0 <= i <= v@.len(),
            forall|j: int| 0 <= j < i ==> lex_lt(#[trigger] pv[j].0, kb),
        decreases v@.len() - i,
    {
        proof {
            assert(pv[i as int].0 == encode_utf8(v@[i as int].0@));
        }
        i = i + 1;
    }
    proof {
        if i < v@.len() {
            assert(pv[i as int].0 == encode_utf8(v@[i as int].0@));
        }
    }
    let replace: bool = i < v.len() && matches!(
        entry_cmp(v, i, &k),
        KeyOrder::Equal,
    );
    proof {
        lemma_sorted_insert_split(pv, kb, frame_view(val), i as int);
    }
    if replace {
        v.remove(i);
        v.insert(i, (k, val));
        proof {
            lemma_pair_views_of(v@);
            assert(v@ =~= old(v)@.take(i as int).push((k, val)) + old(
                v,
            )@.skip(i as int + 1));
            assert forall|j: int| 0 <= j < v@.len() implies pair_views_of(
                v@,
            )[j] == (pv.take(i as int) + seq![(kb, frame_view(val))]
                + pv.skip(i as int + 1))[j] by {
                if j < i as int {
                    assert(v@[j] == old(v)@[j]);
                    assert(pv[j] == (encode_utf8(old(v)@[j].0@), frame_view(
                        old(v)@[j].1,
                    )));
                } else if j > i as int {
                    assert(v@[j] == old(v)@[j]);
                    assert(pv[j] == (encode_utf8(old(v)@[j].0@), frame_view(
                        old(v)@[j].1,
                    )));
                }
            }
            assert(pair_views_of(v@) =~= pv.take(i as int) + seq![
                (kb, frame_view(val)),
            ] + pv.skip(i as int + 1));
        }
    } else {
        v.insert(i, (k, val));
        proof {
            lemma_pair_views_of(v@);
            assert(v@ =~= old(v)@.take(i as int).push((k, val)) + old(
                v,
            )@.skip(i as int));
            assert forall|j: int| 0 <= j < v@.len() implies pair_views_of(
                v@,
            )[j] == (pv.take(i as int) + seq![(kb, frame_view(val))]
                + pv.skip(i as int))[j] by {
                if j < i as int {
                    assert(v@[j] == old(v)@[j]);
                    assert(pv[j] == (encode_utf8(old(v)@[j].0@), frame_view(
                        old(v)@[j].1,
                    )));
                } else if j > i as int {
                    assert(v@[j] == old(v)@[j - 1]);
                    assert(pv[j - 1] == (encode_utf8(old(v)@[j - 1].0@),
                    frame_view(old(v)@[j - 1].1)));
                }
            }
            assert(pair_views_of(v@) =~= pv.take(i as int) + seq![
                (kb, frame_view(val)),
            ] + pv.skip(i as int));
        }
    }
}

impl RespMap {
    /// An empty map.
    pub fn new() -> (r: RespMap)
        ensures
            r@ == Seq::<(Seq<u8>, FrameView)>::empty(),
            FrameView::MapFrame(r@).wf(),
    {
        let r = RespMap(Vec::new());
        proof {
            assert(r@ =~= Seq::<(Seq<u8>, FrameView)>::empty());
        }
        r
    }

    /// The number of entries.
    pub fn len(&self) -> (n: usize)
        ensures
            n == self@.len(),
    {
        proof {
            lemma_pair_views_of(self.0@);
        }
        self.0.len()
    }

    /// The entries, in ascending key order.
    pub fn entries(&self) -> (r: &Vec<(String, RespFrame)>)
        ensures
            self@ == pair_views_of(r@),
    {
        &self.0
    }

    /// Binds `key` to `value`: the entry lands in ascending key position,
    /// and an existing entry with the same key is overwritten.
    pub fn insert(&mut self, key: String, value: RespFrame)
        ensures
            final(self)@ == sorted_insert(
                old(self)@,
                encode_utf8(key@),
                frame_view(value),
            ),
    {
        insert_pair(&mut self.0, key, value);
    }
}

} // verus!
