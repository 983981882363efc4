//! The preparatory stage: what a variant file says of each locus, once its
//! records are read.

use vstd::prelude::*;
use crate::text::byte_seqs;

verus! {

/// One record of a variant file.
pub struct Locus {
    /// The position of the locus, counted from 0.
    pub position: i64,
    /// The alleles of the locus, the reference allele first.
    pub alleles: Vec<Vec<u8>>,
    /// For each sample, the allele of each of its chromosome copies: the
    /// number of the allele, or nothing where the call is missing.
    pub genotypes: Vec<Vec<Option<u32>>>,
}

/// What is reported of one locus.
pub struct LocusReport {
    /// The position of the locus, counted from 0.
    pub position: i64,
    /// The alleles of the locus, each followed by a space.
    pub alleles: Vec<u8>,
    /// For each sample, the number of its copies that carry the reference allele.
    pub reference: Vec<usize>,
    /// For each sample, the number of its copies that carry another allele.
    pub alternate: Vec<usize>,
    /// For each sample, the number of its copies without a call.
    pub missing: Vec<usize>,
}

/// What a copy of a chromosome carries at a locus.
#[derive(Clone, Copy, Debug, PartialEq, Eq, Structural)]
pub enum AlleleKind {
    Reference,
    Alternate,
    Missing,
}

/// The kind of an allele call: allele 0 is the reference allele.
pub open spec fn kind_of(call: Option<u32>) -> AlleleKind {
    match call {
        Some(i) => if i == 0 {
            AlleleKind::Reference
        } else {
            AlleleKind::Alternate
        },
        None => AlleleKind::Missing,
    }
}

/// The number of calls of `kind` among the first `n`.
pub open spec fn count_kind(calls: Seq<Option<u32>>, kind: AlleleKind, n: nat) -> nat
    decreases n,
{
    if n == 0 {
        0
    } else {
        let before = count_kind(calls, kind, (n - 1) as nat);
        if kind_of(calls[n - 1]) == kind {
            before + 1
        } else {
            before
        }
    }
}

/// The alleles written one after the other, each followed by a space.
pub open spec fn alleles_text(alleles: Seq<Seq<u8>>) -> Seq<u8>
    decreases alleles.len(),
{
    if alleles.len() == 0 {
        Seq::empty()
    } else {
        alleles_text(alleles.drop_last()) + alleles.last() + seq![32u8]
    }
}

/// Counts the reference, alternate and missing alleles of one sample.
pub fn count_alleles(calls: &Vec<Option<u32>>) -> (res: (usize, usize, usize))
    ensures
        res.0 == count_kind(calls@, AlleleKind::Reference, calls@.len()),
        res.1 == count_kind(calls@, AlleleKind::Alternate, calls@.len()),
        res.2 == count_kind(calls@, AlleleKind::Missing, calls@.len()),
        res.0 + res.1 + res.2 == calls@.len(),
{
    let mut reference: usize = 0;
    let mut alternate: usize = 0;
    let mut missing: usize = 0;
    let mut k: usize = 0;
    while k < calls.len()
        invariant
            k <= calls@.len(),
            reference == count_kind(calls@, AlleleKind::Reference, k as nat),
            alternate == count_kind(calls@, AlleleKind::Alternate, k as nat),
            missing == count_kind(calls@, AlleleKind::Missing, k as nat),
            reference + alternate + missing == k,
        decreases calls@.len() - k,
    {
        match calls[k] {
            Some(i) => {
                if i == 0 {
                    reference += 1;
                } else {
                    alternate += 1;
                }
            },
            None => {
                missing += 1;
            },
        }
        k += 1;
    }
    (reference, alternate, missing)
}

/// Writes the alleles one after the other, each followed by a space.
pub fn join_alleles(alleles: &Vec<Vec<u8>>) -> (text: Vec<u8>)
    ensures
        text@ == alleles_text(byte_seqs(alleles)),
{
    let ghost all = byte_seqs(alleles);
    let mut text: Vec<u8> = Vec::new();
    let mut a: usize = 0;
    assert(all.take(0) =~= Seq::<Seq<u8>>::empty());
    while a < alleles.len()
        invariant
            all == byte_seqs(alleles),
            a <= alleles@.len(),
            text@ == alleles_text(all.take(a as int)),
        decreases alleles@.len() - a,
    {
        let allele = &alleles[a];
        let ghost before = text@;
        let mut k: usize = 0;
        while k < allele.len()
            invariant
                k <= allele@.len(),
                text@ == before + allele@.take(k as int),
            decreases allele@.len() - k,
        {
            text.push(allele[k]);
            assert(text@ =~= before + allele@.take(k + 1));
            k += 1;
        }
        text.push(32);
        proof {
            assert(allele@.take(k as int) =~= allele@);
            assert(all.take(a + 1).drop_last() =~= all.take(a as int));
            assert(all.take(a + 1).last() == allele@);
            assert(text@ =~= before + allele@ + seq![32u8]);
        }
        a += 1;
    }
    assert(all.take(a as int) =~= all);
    text
}

impl LocusReport {
    /// This is the report of `locus`.
    pub open spec fn reports(&self, locus: &Locus) -> bool {
        &&& self.position == locus.position
        &&& self.alleles@ == alleles_text(byte_seqs(&locus.alleles))
        &&& self.reference@.len() == locus.genotypes@.len()
        &&& self.alternate@.len() == locus.genotypes@.len()
        &&& self.missing@.len() == locus.genotypes@.len()
        &&& forall|s: int|
            0 <= s < locus.genotypes@.len() ==> (#[trigger] self.reference@[s]) == count_kind(
                locus.genotypes@[s]@,
                AlleleKind::Reference,
                locus.genotypes@[s]@.len(),
            )
        &&& forall|s: int|
            0 <= s < locus.genotypes@.len() ==> (#[trigger] self.alternate@[s]) == count_kind(
                locus.genotypes@[s]@,
                AlleleKind::Alternate,
                locus.genotypes@[s]@.len(),
            )
        &&& forall|s: int|
            0 <= s < locus.genotypes@.len() ==> (#[trigger] self.missing@[s]) == count_kind(
                locus.genotypes@[s]@,
                AlleleKind::Missing,
                locus.genotypes@[s]@.len(),
            )
    }
}

/// Reports one locus: its position, its alleles, and for each sample the
/// number of reference, alternate and missing alleles.
pub fn summarize_locus(locus: &Locus) -> (report: LocusReport)
    ensures
        report.reports(locus),
{
    let alleles = join_alleles(&locus.alleles);
    let mut reference: Vec<usize> = Vec::new();
    let mut alternate: Vec<usize> = Vec::new();
    let mut missing: Vec<usize> = Vec::new();
    let mut s: usize = 0;
    while s < locus.genotypes.len()
        invariant
            s <= locus.genotypes@.len(),
            reference@.len() == s,
            alternate@.len() == s,
            missing@.len() == s,
            forall|q: int|
                0 <= q < s ==> (#[trigger] reference@[q]) == count_kind(
                    locus.genotypes@[q]@,
                    AlleleKind::Reference,
                    locus.genotypes@[q]@.len(),
                ),
            forall|q: int|
                0 <= q < s ==> (#[trigger] alternate@[q]) == count_kind(
                    locus.genotypes@[q]@,
                    AlleleKind::Alternate,
                    locus.genotypes@[q]@.len(),
                ),
            forall|q: int|
                0 <= q < s ==> (#[trigger] missing@[q]) == count_kind(
                    locus.genotypes@[q]@,
                    AlleleKind::Missing,
                    locus.genotypes@[q]@.len(),
                ),
        decreases locus.genotypes@.len() - s,
    {
        let counts = count_alleles(&locus.genotypes[s]);
        reference.push(counts.0);
        alternate.push(counts.1);
        missing.push(counts.2);
        s += 1;
    }
    LocusReport { position: locus.position, alleles, reference, alternate, missing }
}

/// Reports every locus of a variant file, in file order.
pub fn process_variant_input(loci: &Vec<Locus>) -> (reports: Vec<LocusReport>)
    ensures
        reports@.len() == loci@.len(),
        forall|r: int| 0 <= r < loci@.len() ==> (#[trigger] reports@[r]).reports(&loci@[r]),
{
    let mut reports: Vec<LocusReport> = Vec::new();
    let mut r: usize = 0;
    while r < loci.len()
        invariant
            r <= loci@.len(),
            reports@.len() == r,
            forall|q: int| 0 <= q < r ==> (#[trigger] reports@[q]).reports(&loci@[q]),
        decreases loci@.len() - r,
    {
        reports.push(summarize_locus(&loci[r]));
        r += 1;
    }
    reports
}

} // verus!
