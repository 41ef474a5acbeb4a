//! Snapshots: one sampling tick's utilization values paired one to one with
//! the fragments the selector chose for them.
use vstd::prelude::*;

use crate::corpus::Corpus;
use crate::corpus::views_of;
use crate::selector::chosen_fragment;
use crate::selector::copy_bytes;
use crate::selector::select_fragment;

verus! {

/// Mathematical content of a snapshot: the scaled utilization values and the
/// fragment texts, in order.
#[verifier::ext_equal]
pub ghost struct SnapView {
    pub utils: Seq<u32>,
    pub frags: Seq<Seq<u8>>,
}

/// One tick's paired utilization values and selected fragments, immutable
/// once assembled. A utilization value is fixed-point: percent scaled by
/// ten thousand, so `100000` stands for ten percent.
pub struct Snapshot {
    utilizations: Vec<u32>,
    fragments: Vec<Vec<u8>>,
}

impl View for Snapshot {
    type V = SnapView;

    closed spec fn view(&self) -> SnapView {
        SnapView { utils: self.utilizations@, frags: views_of(self.fragments@) }
    }
}

impl Snapshot {
    /// The two sequences of a snapshot always pair up one to one.
    #[verifier::type_invariant]
    spec fn paired(self) -> bool {
        self.utilizations@.len() == self.fragments@.len()
    }

    /// Assembles a snapshot from already paired sequences.
    pub fn new(utilizations: Vec<u32>, fragments: Vec<Vec<u8>>) -> (s: Snapshot)
        requires
            utilizations@.len() == fragments@.len(),
        ensures
            s@.utils == utilizations@,
            s@.frags == views_of(fragments@),
    {
        Snapshot { utilizations, fragments }
    }

    /// How many values (and fragments) the snapshot holds.
    pub fn len(&self) -> (n: usize)
        ensures
            n == self@.utils.len(),
            n == self@.frags.len(),
    {
        proof {
            use_type_invariant(self);
        }
        self.utilizations.len()
    }

    /// The scaled utilization value at `i`.
    pub fn utilization(&self, i: usize) -> (u: u32)
        requires
            i < self@.utils.len(),
        ensures
            u == self@.utils[i as int],
    {
        self.utilizations[i]
    }

    /// The fragment at `i`.
    pub fn fragment(&self, i: usize) -> (frag: &Vec<u8>)
        requires
            i < self@.frags.len(),
        ensures
            frag@ == self@.frags[i as int],
    {
        proof {
            use_type_invariant(self);
        }
        &self.fragments[i]
    }
}

impl Clone for Snapshot {
    /// A clone has exactly the same content.
    fn clone(&self) -> (r: Self)
        ensures
            r@ == self@,
    {
        proof {
            use_type_invariant(self);
        }
        let mut utilizations: Vec<u32> = Vec::new();
        let mut i: usize = 0;
        while i < self.utilizations.len()
            invariant
                i <= self.utilizations@.len(),
                utilizations@ =~= self.utilizations@.subrange(0, i as int),
            decreases self.utilizations@.len() - i,
        {
            utilizations.push(self.utilizations[i]);
            i = i + 1;
        }
        let mut fragments: Vec<Vec<u8>> = Vec::new();
        let mut j: usize = 0;
        while j < self.fragments.len()
            invariant
                j <= self.fragments@.len(),
                views_of(fragments@) =~= views_of(self.fragments@).subrange(0, j as int),
                fragments@.len() == j,
            decreases self.fragments@.len() - j,
        {
            let frag = copy_bytes(&self.fragments[j]);
            fragments.push(frag);
            j = j + 1;
        }
        proof {
            assert(utilizations@ =~= self.utilizations@);
            assert(views_of(fragments@) =~= views_of(self.fragments@));
        }
        let r = Snapshot { utilizations, fragments };
        proof {
            assert(r@ =~= self@);
        }
        r
    }
}

/// Assembles the snapshot for one tick: each utilization value is paired with
/// the fragment the selector chose for it, in order.
pub fn make_snapshot(corpus: &Corpus, utilizations: Vec<u32>) -> (s: Snapshot)
    ensures
        s@.utils == utilizations@,
        s@.frags.len() == utilizations@.len(),
        forall|i: int|
            0 <= i < utilizations@.len() ==> #[trigger] chosen_fragment(
                corpus@,
                utilizations@[i] as nat,
                s@.frags[i],
            ),
{
    let mut fragments: Vec<Vec<u8>> = Vec::new();
    let mut i: usize = 0;
    while i < utilizations.len()
        invariant
            i <= utilizations@.len(),
            fragments@.len() == i,
            forall|j: int|
                0 <= j < i ==> #[trigger] chosen_fragment(
                    corpus@,
                    utilizations@[j] as nat,
                    views_of(fragments@)[j],
                ),
        decreases utilizations@.len() - i,
    {
        let frag = select_fragment(corpus, utilizations[i]);
        proof {
            assert(views_of(fragments@.push(frag)) =~= views_of(fragments@) + seq![frag@]);
        }
        fragments.push(frag);
        i = i + 1;
    }
    Snapshot::new(utilizations, fragments)
}

} // verus!
