use vstd::prelude::*;

use crate::distance::MetricType;
use crate::ivf_lists;

verus! {

/// Vectors in inverted lists, as they are.
pub struct IVFFlatIndex {
    pub d: usize,
    pub nlist: usize,
    pub metric: MetricType,
    pub quantizer_centroids: Vec<u32>,
    pub ids: Vec<Vec<i64>>,
    pub vectors: Vec<Vec<u32>>,
}

/// What an index of plain vectors holds.
#[verifier::ext_equal]
pub struct FlatModel {
    pub d: usize,
    pub nlist: usize,
    pub metric: MetricType,
    pub centroids: Seq<u32>,
    pub ids: Seq<Seq<i64>>,
    pub vectors: Seq<Seq<u32>>,
}

impl View for IVFFlatIndex {
    type V = FlatModel;

    open spec fn view(&self) -> FlatModel {
        FlatModel {
            d: self.d,
            nlist: self.nlist,
            metric: self.metric,
            centroids: self.quantizer_centroids@,
            ids: ivf_lists::id_lists(self.ids@),
            vectors: ivf_lists::value_lists(self.vectors@),
        }
    }
}

impl FlatModel {
    /// The index after rows have been added to the lists that they go to.
    pub open spec fn with_rows(
        self,
        data: Seq<u32>,
        ids: Seq<i64>,
        assignments: Seq<usize>,
    ) -> FlatModel {
        FlatModel {
            ids: ivf_lists::extended(self.ids, ids, 1, assignments),
            vectors: ivf_lists::extended(self.vectors, data, self.d as nat, assignments),
            ..self
        }
    }
}

impl IVFFlatIndex {
    /// An index of `nlist` empty lists without centroids.
    pub fn new(d: usize, nlist: usize, metric: MetricType) -> (r: Self)
        ensures
            r@ == (FlatModel {
                d,
                nlist,
                metric,
                centroids: Seq::empty(),
                ids: Seq::new(nlist as nat, |i: int| Seq::empty()),
                vectors: Seq::new(nlist as nat, |i: int| Seq::empty()),
            }),
    {
        let mut ids: Vec<Vec<i64>> = Vec::new();
        let mut vectors: Vec<Vec<u32>> = Vec::new();
        for i in 0..nlist
            invariant
                ids@.len() == i,
                vectors@.len() == i,
                forall|k: int| 0 <= k < i ==> (#[trigger] ids@[k])@.len() == 0,
                forall|k: int| 0 <= k < i ==> (#[trigger] vectors@[k])@.len() == 0,
        {
            ids.push(Vec::new());
            vectors.push(Vec::new());
        }
        let r = IVFFlatIndex { d, nlist, metric, quantizer_centroids: Vec::new(), ids, vectors };
        assert(r@.ids =~~= Seq::new(nlist as nat, |i: int| Seq::<i64>::empty()));
        assert(r@.vectors =~~= Seq::new(nlist as nat, |i: int| Seq::<u32>::empty()));
        r
    }

    /// Adds rows to the lists that they go to.
    pub fn add(&mut self, data: &Vec<u32>, ids: &Vec<i64>, assignments: &Vec<usize>)
        requires
            old(self)@.ids.len() == old(self)@.nlist,
            old(self)@.vectors.len() == old(self)@.nlist,
            ids@.len() == assignments@.len(),
            data@.len() == assignments@.len() * old(self)@.d,
            forall|i: int|
                0 <= i < assignments@.len() ==> #[trigger] assignments@[i] < old(self)@.nlist,
        ensures
            final(self)@ == old(self)@.with_rows(data@, ids@, assignments@),
    {
        let ghost before = self@;
        assert(ivf_lists::id_lists(self.ids@) =~= ivf_lists::all_lists(self.ids@));
        assert(ivf_lists::value_lists(self.vectors@) =~= ivf_lists::all_lists(self.vectors@));
        ivf_lists::append_assigned(&mut self.ids, ids, 1, assignments);
        ivf_lists::append_assigned(&mut self.vectors, data, self.d, assignments);
        proof {
            assert(ivf_lists::id_lists(self.ids@) =~= ivf_lists::all_lists(self.ids@));
            assert(ivf_lists::value_lists(self.vectors@) =~= ivf_lists::all_lists(self.vectors@));
            assert(self@ =~= before.with_rows(data@, ids@, assignments@));
        }
    }
}

} // verus!
