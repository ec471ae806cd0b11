//! The anchor index: named reference embeddings and the search for those that
//! are most similar to a query.
//!
//! Similarity is the dot product, which for vectors of unit length is the
//! cosine of the angle between them. Matches are ranked by similarity; among
//! equally similar anchors the one that was inserted first comes first.

use crate::errors::CoreError;
use crate::fixed::floor_div;
use crate::rank::{
    distinct_keys, is_ranking, keys_of, lemma_table_of, rank_entries, ranking, table_of,
};
use crate::vector::{dot, dot_product, lemma_dot_upto};
use vstd::prelude::*;

verus! {

/// The largest number of components that an index accepts.
pub const MAX_DIMENSION: usize = 65536;

/// A stored reference embedding with its metadata.
#[derive(Clone, Debug)]
pub struct IntentAnchor {
    pub id: i64,
    pub vector: Vec<i32>,
    pub description: String,
    pub importance: u32,
    pub tags: String,
}

/// An anchor as a mathematical value.
pub struct AnchorView {
    pub id: i64,
    pub vector: Seq<i32>,
    pub description: Seq<char>,
    pub importance: u32,
    pub tags: Seq<char>,
}

impl View for IntentAnchor {
    type V = AnchorView;

    open spec fn view(&self) -> AnchorView {
        AnchorView {
            id: self.id,
            vector: self.vector@,
            description: self.description@,
            importance: self.importance,
            tags: self.tags@,
        }
    }
}

impl IntentAnchor {
    /// A copy of this anchor.
    pub fn duplicate(&self) -> (copy: Self)
        ensures
            copy@ == self@,
    {
        IntentAnchor {
            id: self.id,
            vector: self.vector.clone(),
            description: self.description.clone(),
            importance: self.importance,
            tags: self.tags.clone(),
        }
    }
}

/// One search result: how similar the anchor at `position` is to the query.
#[derive(Clone, Copy, Debug)]
pub struct IntentMatch {
    pub similarity: i64,
    pub position: usize,
}

/// The views of a sequence of anchors.
pub open spec fn anchor_views(anchors: Seq<IntentAnchor>) -> Seq<AnchorView> {
    Seq::new(anchors.len(), |i: int| anchors[i]@)
}

/// Whether one of `anchors` has the identifier `id`.
pub open spec fn has_id(anchors: Seq<AnchorView>, id: i64) -> bool {
    exists|i: int| 0 <= i < anchors.len() && (#[trigger] anchors[i]).id == id
}

/// The position of an anchor with the identifier `id`.
pub open spec fn position_of_id(anchors: Seq<AnchorView>, id: i64) -> int {
    choose|i: int| 0 <= i < anchors.len() && (#[trigger] anchors[i]).id == id
}

/// No two anchors have the same identifier.
pub open spec fn distinct_ids(anchors: Seq<AnchorView>) -> bool {
    forall|i: int, j: int|
        0 <= i < anchors.len() && 0 <= j < anchors.len() && i != j ==> (#[trigger] anchors[i]).id
            != (#[trigger] anchors[j]).id
}

/// The anchors after `anchor` has been inserted: it takes the place of the
/// anchor that has its identifier, or goes to the end where there is none.
pub open spec fn with_anchor(anchors: Seq<AnchorView>, anchor: AnchorView) -> Seq<AnchorView> {
    if has_id(anchors, anchor.id) {
        anchors.update(position_of_id(anchors, anchor.id), anchor)
    } else {
        anchors.push(anchor)
    }
}

/// The anchors after the first `upto` anchors of `batch` have been inserted,
/// in order.
pub open spec fn with_anchors(anchors: Seq<AnchorView>, batch: Seq<AnchorView>, upto: nat) -> Seq<
    AnchorView,
>
    decreases upto,
{
    if upto == 0 {
        anchors
    } else {
        with_anchor(with_anchors(anchors, batch, (upto - 1) as nat), batch[upto - 1])
    }
}

/// The similarity of two vectors of one length: their dot product as a
/// fixed-point number, rounded down.
pub open spec fn similarity(a: Seq<i32>, b: Seq<i32>) -> int {
    dot_product(a, b) / 0x4000_0000
}

/// The similarity of each anchor to `query`, under the anchor's position.
pub open spec fn similarity_table(anchors: Seq<AnchorView>, query: Seq<i32>) -> Map<int, int> {
    Map::new(
        |p: int| 0 <= p < anchors.len(),
        |p: int| similarity(anchors[p].vector, query),
    )
}

/// The `k` anchors most similar to `query`, most similar first, each as
/// `(similarity, position)`. Among equally similar anchors the one at the
/// lower position, which was inserted earlier, comes first.
pub open spec fn best_matches(anchors: Seq<AnchorView>, query: Seq<i32>, k: nat) -> Seq<
    (int, int),
> {
    let table = similarity_table(anchors, query);
    let order = ranking(table);
    let kept = if k < order.len() {
        k
    } else {
        order.len()
    };
    Seq::new(kept, |i: int| (table[order[i]], order[i]))
}

/// The matches as `(similarity, position)` pairs.
pub open spec fn match_pairs(matches: Seq<IntentMatch>) -> Seq<(int, int)> {
    Seq::new(matches.len(), |i: int| (matches[i].similarity as int, matches[i].position as int))
}

/// Every position of the best matches lies in the index, and where all
/// vectors have one supported dimension, every similarity is small enough
/// to be multiplied by an importance.
pub proof fn lemma_best_match_range(
    anchors: Seq<AnchorView>,
    query: Seq<i32>,
    k: nat,
    i: int,
    dim: nat,
)
    requires
        0 <= i < best_matches(anchors, query, k).len(),
        is_ranking(
            ranking(similarity_table(anchors, query)),
            similarity_table(anchors, query),
        ),
        dim <= MAX_DIMENSION,
        query.len() == dim,
        forall|p: int| 0 <= p < anchors.len() ==> (#[trigger] anchors[p]).vector.len() == dim,
    ensures
        0 <= best_matches(anchors, query, k)[i].1 < anchors.len(),
        -0x1_0000_0000_0000 <= best_matches(anchors, query, k)[i].0 <= 0x1_0000_0000_0000,
{
    let table = similarity_table(anchors, query);
    let order = ranking(table);
    assert(order.contains(order[i]));
    let p = order[i];
    assert(table.contains_key(p));
    lemma_dot_upto(anchors[p].vector, query, dim);
    let x = dot_product(anchors[p].vector, query);
    assert(-0x1_0000_0000_0000 <= x / 0x4000_0000 <= 0x1_0000_0000_0000) by (nonlinear_arith)
        requires
            -0x1_0000 * 0x4000_0000_0000_0000 <= x <= 0x1_0000 * 0x4000_0000_0000_0000,
    ;
}

/// Computes the similarity of two vectors of one length.
pub fn similarity_of(a: &Vec<i32>, b: &Vec<i32>) -> (s: i64)
    requires
        a@.len() == b@.len(),
        a@.len() <= MAX_DIMENSION,
    ensures
        s == similarity(a@, b@),
        -0x1_0000_0000_0000 <= s <= 0x1_0000_0000_0000,
{
    let d = dot(a, b);
    proof {
        lemma_dot_upto(a@, b@, a@.len());
    }
    let q = floor_div(d, 0x4000_0000);
    proof {
        let x = d as int;
        assert(-0x1_0000_0000_0000 <= x / 0x4000_0000 <= 0x1_0000_0000_0000) by (nonlinear_arith)
            requires
                -0x1_0000 * 0x4000_0000_0000_0000 <= x <= 0x1_0000 * 0x4000_0000_0000_0000,
        ;
    }
    q as i64
}

/// An index of anchors of one dimension.
pub struct IntentEngine {
    dim: usize,
    anchors: Vec<IntentAnchor>,
}

impl IntentEngine {
    /// The number of components of every vector in this index.
    pub closed spec fn dim(&self) -> nat {
        self.dim as nat
    }

    /// The anchors in the order of their first insertion.
    pub closed spec fn anchors(&self) -> Seq<AnchorView> {
        anchor_views(self.anchors@)
    }

    /// The invariant of an index: its dimension is supported, every anchor has
    /// that dimension, and no identifier occurs twice.
    pub open spec fn wf(&self) -> bool {
        &&& 0 < self.dim() <= MAX_DIMENSION
        &&& distinct_ids(self.anchors())
        &&& forall|i: int|
            0 <= i < self.anchors().len() ==> (#[trigger] self.anchors()[i]).vector.len()
                == self.dim()
    }

    /// An empty index for vectors of `dim` components. A dimension of zero or
    /// above [`MAX_DIMENSION`] is refused.
    pub fn new(dim: usize) -> (made: Result<Self, CoreError>)
        ensures
            made is Ok <==> 0 < dim <= MAX_DIMENSION,
            made is Err ==> made->Err_0 == CoreError::BadInputSize,
            made is Ok ==> made->Ok_0.wf() && made->Ok_0.dim() == dim && made->Ok_0.anchors()
                == Seq::<AnchorView>::empty(),
    {
        if dim == 0 || dim > MAX_DIMENSION {
            return Err(CoreError::BadInputSize);
        }
        let engine = IntentEngine { dim, anchors: Vec::new() };
        proof {
            assert(engine.anchors() =~= Seq::<AnchorView>::empty());
        }
        Ok(engine)
    }

    /// The dimension of this index.
    pub fn dimension(&self) -> (dim: usize)
        ensures
            dim == self.dim(),
    {
        self.dim
    }

    /// The number of anchors.
    pub fn size(&self) -> (n: usize)
        ensures
            n == self.anchors().len(),
    {
        self.anchors.len()
    }

    /// The anchor at `position`.
    pub fn anchor(&self, position: usize) -> (found: &IntentAnchor)
        requires
            position < self.anchors().len(),
        ensures
            found@ == self.anchors()[position as int],
    {
        &self.anchors[position]
    }

    /// The position of the anchor with the identifier `id`, if there is one.
    pub fn find(&self, id: i64) -> (found: Option<usize>)
        requires
            self.wf(),
        ensures
            found is Some <==> has_id(self.anchors(), id),
            found is Some ==> found->0 == position_of_id(self.anchors(), id) && found->0
                < self.anchors().len(),
    {
        let mut i: usize = 0;
        while i < self.anchors.len()
            invariant
                i <= self.anchors@.len(),
                self.wf(),
                forall|j: int| 0 <= j < i ==> (#[trigger] self.anchors()[j]).id != id,
            decreases self.anchors@.len() - i,
        {
            if self.anchors[i].id == id {
                proof {
                    assert(self.anchors()[i as int].id == id);
                    let at = position_of_id(self.anchors(), id);
                    assert(self.anchors()[at].id == id);
                    assert(at == i);
                }
                return Some(i);
            }
            i = i + 1;
        }
        None
    }

    /// Inserts an anchor. An anchor whose identifier is already in the index
    /// replaces the one that has it. An anchor whose vector does not have the
    /// dimension of the index is refused.
    pub fn add_anchor(&mut self, anchor: IntentAnchor) -> (added: Result<(), CoreError>)
        requires
            old(self).wf(),
        ensures
            final(self).wf(),
            final(self).dim() == old(self).dim(),
            added is Ok <==> anchor@.vector.len() == old(self).dim(),
            added is Err ==> added->Err_0 == CoreError::DimensionMismatch && final(self).anchors()
                == old(self).anchors(),
            added is Ok ==> final(self).anchors() == with_anchor(old(self).anchors(), anchor@),
    {
        if anchor.vector.len() != self.dim {
            return Err(CoreError::DimensionMismatch);
        }
        let ghost before = self.anchors();
        let ghost incoming = anchor@;
        match self.find(anchor.id) {
            Some(at) => {
                self.anchors.set(at, anchor);
                proof {
                    assert(self.anchors() =~= before.update(at as int, incoming));
                }
            },
            None => {
                self.anchors.push(anchor);
                proof {
                    assert(self.anchors() =~= before.push(incoming));
                }
            },
        }
        Ok(())
    }

    /// Inserts a batch of anchors, in order. Where one of them does not have
    /// the dimension of the index, the batch is refused as a whole and the
    /// index stays as it is.
    pub fn batch_add(&mut self, batch: &Vec<IntentAnchor>) -> (added: Result<(), CoreError>)
        requires
            old(self).wf(),
        ensures
            final(self).wf(),
            final(self).dim() == old(self).dim(),
            added is Ok <==> (forall|i: int|
                0 <= i < batch@.len() ==> (#[trigger] batch@[i])@.vector.len() == old(self).dim()),
            added is Err ==> added->Err_0 == CoreError::DimensionMismatch && final(self).anchors()
                == old(self).anchors(),
            added is Ok ==> final(self).anchors() == with_anchors(
                old(self).anchors(),
                anchor_views(batch@),
                batch@.len(),
            ),
    {
        let mut i: usize = 0;
        while i < batch.len()
            invariant
                i <= batch@.len(),
                self.wf(),
                self.dim() == old(self).dim(),
                self.anchors() == old(self).anchors(),
                forall|j: int| 0 <= j < i ==> (#[trigger] batch@[j])@.vector.len() == self.dim(),
            decreases batch@.len() - i,
        {
            if batch[i].vector.len() != self.dim {
                return Err(CoreError::DimensionMismatch);
            }
            i = i + 1;
        }
        let mut k: usize = 0;
        while k < batch.len()
            invariant
                k <= batch@.len(),
                self.wf(),
                self.dim() == old(self).dim(),
                forall|j: int|
                    0 <= j < batch@.len() ==> (#[trigger] batch@[j])@.vector.len() == self.dim(),
                self.anchors() == with_anchors(
                    old(self).anchors(),
                    anchor_views(batch@),
                    k as nat,
                ),
            decreases batch@.len() - k,
        {
            let copy = batch[k].duplicate();
            let added = self.add_anchor(copy);
            k = k + 1;
        }
        Ok(())
    }

    /// The `k` anchors most similar to `query`, most similar first. A query
    /// that does not have the dimension of the index is refused.
    pub fn search(&self, query: &Vec<i32>, k: usize) -> (found: Result<Vec<IntentMatch>, CoreError>)
        requires
            self.wf(),
        ensures
            found is Ok <==> query@.len() == self.dim(),
            found is Err ==> found->Err_0 == CoreError::DimensionMismatch,
            found is Ok ==> match_pairs(found->Ok_0@) == best_matches(self.anchors(), query@, k as nat),
            found is Ok ==> forall|i: int|
                0 <= i < found->Ok_0@.len() ==> (#[trigger] found->Ok_0@[i]).position
                    < self.anchors().len(),
            found is Ok ==> is_ranking(
                ranking(similarity_table(self.anchors(), query@)),
                similarity_table(self.anchors(), query@),
            ),
    {
        if query.len() != self.dim {
            return Err(CoreError::DimensionMismatch);
        }
        let n = self.anchors.len();
        let ghost table = similarity_table(self.anchors(), query@);
        let mut entries: Vec<(i128, i128)> = Vec::new();
        let mut i: usize = 0;
        while i < n
            invariant
                n == self.anchors@.len(),
                i <= n,
                self.wf(),
                query@.len() == self.dim(),
                entries@.len() == i,
                table == similarity_table(self.anchors(), query@),
                forall|j: int|
                    0 <= j < i ==> (#[trigger] entries@[j]).0 == j && entries@[j].1 == table[j]
                        && i64::MIN <= entries@[j].1 <= i64::MAX,
            decreases n - i,
        {
            proof {
                assert(self.anchors()[i as int].vector.len() == self.dim());
            }
            let s = similarity_of(&self.anchors[i].vector, query);
            entries.push((i as i128, s as i128));
            i = i + 1;
        }
        proof {
            assert(distinct_keys(entries@));
            lemma_table_of(entries@);
            assert forall|key: int| table_of(entries@).contains_key(key) <==> table.contains_key(
                key,
            ) by {
                if table.contains_key(key) {
                    assert(entries@[key].0 == key);
                }
            }
            assert forall|key: int| table.contains_key(key) implies table_of(entries@)[key]
                == table[key] by {
                assert(entries@[key].0 == key);
            }
            assert(table_of(entries@) =~= table);
        }
        let ranked = rank_entries(&entries);
        let ghost order = ranking(table);
        let keep = if k < n {
            k
        } else {
            n
        };
        let mut found: Vec<IntentMatch> = Vec::new();
        let mut m: usize = 0;
        while m < keep
            invariant
                keep <= n,
                n == ranked@.len(),
                n == self.anchors().len(),
                m <= keep,
                found@.len() == m,
                table == similarity_table(self.anchors(), query@),
                table == table_of(entries@),
                order == ranking(table),
                keys_of(ranked@) == order,
                is_ranking(order, table),
                forall|i: int|
                    0 <= i < ranked@.len() ==> table[(#[trigger] ranked@[i]).0 as int]
                        == ranked@[i].1,
                n == entries@.len(),
                forall|j: int|
                    0 <= j < entries@.len() ==> (#[trigger] entries@[j]).0 == j && entries@[j].1
                        == table[j] && i64::MIN <= entries@[j].1 <= i64::MAX,
                forall|i: int|
                    0 <= i < m ==> (#[trigger] found@[i]).position == order[i] && found@[i].similarity
                        == table[order[i]] && found@[i].position < n,
            decreases keep - m,
        {
            let r = ranked[m];
            proof {
                let key = r.0 as int;
                assert(order[m as int] == key);
                assert(order.contains(key));
                assert(table.contains_key(key));
                assert(0 <= key < n);
                assert(entries@[key].1 == table[key]);
                assert(table[ranked@[m as int].0 as int] == ranked@[m as int].1);
            }
            found.push(IntentMatch { similarity: r.1 as i64, position: r.0 as usize });
            m = m + 1;
        }
        proof {
            assert(order.len() == n);
            assert(match_pairs(found@) =~= best_matches(self.anchors(), query@, k as nat));
        }
        Ok(found)
    }
}

} // verus!
