//! The haplotypes that a comparison asks for.

use vstd::prelude::*;
use crate::text::{byte_seqs, copy_bytes, same_bytes, split, split_on, trim, trimmed, LINE_FEED};

verus! {

/// The identifiers of both chromosome copies of every sample in `names`: each
/// name with `.0` and with `.1` behind it.
pub open spec fn haplotypes_of(names: Seq<Seq<u8>>) -> Set<Seq<u8>>
    decreases names.len(),
{
    if names.len() == 0 {
        Set::empty()
    } else {
        haplotypes_of(names.drop_last()).insert(names.last() + seq![46u8, 48u8]).insert(
            names.last() + seq![46u8, 49u8],
        )
    }
}

/// The sample names of a sample list: the lines of the trimmed text.
pub open spec fn sample_names(text: Seq<u8>) -> Seq<Seq<u8>> {
    split_on(trimmed(text), LINE_FEED)
}

/// A set of haplotype identifiers.
pub struct HaplotypeSet {
    ids: Vec<Vec<u8>>,
}

impl View for HaplotypeSet {
    type V = Set<Seq<u8>>;

    closed spec fn view(&self) -> Set<Seq<u8>> {
        byte_seqs(&self.ids).to_set()
    }
}

impl HaplotypeSet {
    /// No identifier is held twice.
    pub closed spec fn wf(&self) -> bool {
        byte_seqs(&self.ids).no_duplicates()
    }

    /// The empty set.
    pub fn new() -> (s: Self)
        ensures
            s.wf(),
            s@ == Set::<Seq<u8>>::empty(),
    {
        let s = HaplotypeSet { ids: Vec::new() };
        assert(byte_seqs(&s.ids) =~= Seq::<Seq<u8>>::empty());
        assert(s@ =~= Set::<Seq<u8>>::empty());
        s
    }

    /// Whether `id` is in the set.
    pub fn contains(&self, id: &Vec<u8>) -> (found: bool)
        ensures
            found == self@.contains(id@),
    {
        let mut k: usize = 0;
        while k < self.ids.len()
            invariant
                k <= self.ids@.len(),
                forall|m: int| 0 <= m < k ==> byte_seqs(&self.ids)[m] != id@,
            decreases self.ids@.len() - k,
        {
            if same_bytes(&self.ids[k], id) {
                assert(byte_seqs(&self.ids)[k as int] == id@);
                assert(byte_seqs(&self.ids).contains(id@));
                return true;
            }
            k += 1;
        }
        assert(!byte_seqs(&self.ids).contains(id@));
        false
    }

    /// Adds `id` to the set.
    pub fn insert(&mut self, id: Vec<u8>)
        requires
            old(self).wf(),
        ensures
            final(self).wf(),
            final(self)@ == old(self)@.insert(id@),
    {
        if !self.contains(&id) {
            let ghost before = byte_seqs(&self.ids);
            self.ids.push(id);
            proof {
                assert(byte_seqs(&self.ids) =~= before.push(id@));
                before.lemma_push_to_set_commute(id@);
            }
        } else {
            assert(self@.insert(id@) =~= self@);
        }
    }

    /// The number of identifiers in the set.
    pub fn len(&self) -> (n: usize)
        requires
            self.wf(),
        ensures
            n == self@.len(),
    {
        proof {
            byte_seqs(&self.ids).unique_seq_to_set();
        }
        self.ids.len()
    }

    /// Reads a sample list, one name per line, and expands each name into its
    /// two haplotypes.
    pub fn from_sample_list(text: &Vec<u8>) -> (s: Self)
        ensures
            s.wf(),
            s@ == haplotypes_of(sample_names(text@)),
    {
        let clean = trim(text);
        let names = split(&clean, LINE_FEED);
        let mut s = HaplotypeSet::new();
        let mut i: usize = 0;
        assert(byte_seqs(&names).take(0) =~= Seq::<Seq<u8>>::empty());
        while i < names.len()
            invariant
                i <= names@.len(),
                s.wf(),
                s@ == haplotypes_of(byte_seqs(&names).take(i as int)),
            decreases names@.len() - i,
        {
            let mut first = copy_bytes(&names[i]);
            first.push(46);
            first.push(48);
            let mut second = copy_bytes(&names[i]);
            second.push(46);
            second.push(49);
            proof {
                let done = byte_seqs(&names).take(i + 1);
                assert(done.drop_last() =~= byte_seqs(&names).take(i as int));
                assert(done.last() == names@[i as int]@);
                assert(first@ =~= names@[i as int]@ + seq![46u8, 48u8]);
                assert(second@ =~= names@[i as int]@ + seq![46u8, 49u8]);
            }
            s.insert(first);
            s.insert(second);
            i += 1;
        }
        assert(byte_seqs(&names).take(i as int) =~= byte_seqs(&names));
        s
    }
}

} // verus!
