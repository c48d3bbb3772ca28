//! Triples: the (head, relation, tail) facts that a graph is built from.

use vstd::prelude::*;

use crate::text::{lines_of, spec_lines, spec_split, split_str};

verus! {

/// A (head, relation, tail) fact.
#[derive(Debug, PartialEq, Eq, PartialOrd, Ord)]
pub struct Triple {
    pub head: String,
    pub relation: String,
    pub tail: String,
}

/// The mathematical value of a triple: its three fields as character
/// sequences.
#[verifier::ext_equal]
pub ghost struct TripleV {
    pub head: Seq<char>,
    pub relation: Seq<char>,
    pub tail: Seq<char>,
}

impl View for Triple {
    type V = TripleV;

    open spec fn view(&self) -> TripleV {
        TripleV { head: self.head@, relation: self.relation@, tail: self.tail@ }
    }
}

impl DeepView for Triple {
    type V = TripleV;

    open spec fn deep_view(&self) -> TripleV {
        self@
    }
}

impl Triple {
    pub fn new(head: &str, relation: &str, tail: &str) -> (r: Self)
        ensures
            r@ == (TripleV { head: head@, relation: relation@, tail: tail@ }),
    {
        Triple { head: head.to_owned(), relation: relation.to_owned(), tail: tail.to_owned() }
    }
}

pub type Triples = Vec<Triple>;

/// Which column order a triple file uses.
#[derive(Clone, Copy)]
pub enum TripleOrder {
    HRT,
    HTR,
}

/// The triple a line's tab-separated fields carry, under the given column
/// order; fields past the third are ignored.
pub open spec fn spec_triple_of(fields: Seq<Seq<char>>, order: TripleOrder) -> TripleV {
    match order {
        TripleOrder::HRT => TripleV { head: fields[0], relation: fields[1], tail: fields[2] },
        TripleOrder::HTR => TripleV { head: fields[0], relation: fields[2], tail: fields[1] },
    }
}

pub open spec fn spec_read_triples(s: Seq<char>, order: TripleOrder) -> Seq<TripleV> {
    spec_lines(s).map_values(|l: Seq<char>| spec_triple_of(spec_split(l, '\t'), order))
}

/// Parse tab-separated triples, one per line, with the given column order.
/// Every line must carry at least three fields.
pub fn read_triples(triples: &str, order: TripleOrder) -> (r: Triples)
    requires
        forall|i: int|
            0 <= i < spec_lines(triples@).len() ==> spec_split(
                #[trigger] spec_lines(triples@)[i],
                '\t',
            ).len() >= 3,
    ensures
        r.deep_view() == spec_read_triples(triples@, order),
{
    let ghost target = spec_read_triples(triples@, order);
    let lines = lines_of(triples);
    let ghost ldeep = lines.deep_view();
    let mut r: Triples = Vec::new();
    let nl = lines.len();
    let mut i: usize = 0;
    while i < nl
        invariant
            i <= nl,
            nl == lines@.len(),
            ldeep == lines.deep_view(),
            ldeep == spec_lines(triples@),
            target == spec_read_triples(triples@, order),
            target.len() == nl,
            forall|j: int| 0 <= j < nl ==> spec_split(#[trigger] ldeep[j], '\t').len() >= 3,
            r.deep_view() =~= target.take(i as int),
        decreases nl - i,
    {
        let ghost old_deep = r.deep_view();
        let fields = split_str(lines[i].as_str(), '\t');
        proof {
            assert(fields.deep_view() == spec_split(ldeep[i as int], '\t'));
            assert(fields@.len() == fields.deep_view().len());
        }
        let tri = match order {
            TripleOrder::HRT => Triple::new(
                fields[0].as_str(),
                fields[1].as_str(),
                fields[2].as_str(),
            ),
            TripleOrder::HTR => Triple::new(
                fields[0].as_str(),
                fields[2].as_str(),
                fields[1].as_str(),
            ),
        };
        proof {
            assert(fields.deep_view()[0] == fields@[0]@);
            assert(fields.deep_view()[1] == fields@[1]@);
            assert(fields.deep_view()[2] == fields@[2]@);
            assert(tri@ == spec_triple_of(spec_split(ldeep[i as int], '\t'), order));
            assert(target[i as int] == spec_triple_of(spec_split(ldeep[i as int], '\t'), order));
        }
        r.push(tri);
        proof {
            assert(r.deep_view() =~= old_deep.push(tri@));
            assert(r.deep_view() =~= target.take(i as int + 1));
        }
        i += 1;
    }
    proof {
        assert(target.take(nl as int) =~= target);
    }
    r
}

} // verus!
