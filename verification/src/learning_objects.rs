//! Learning objects of a symbol, sorted into definitions, examples and
//! problems.
use vstd::prelude::*;
use crate::extractor::CognitiveDimension;

verus! {

/// The kind of a learning object.
#[derive(Clone, Copy, Debug, PartialEq, Eq, Structural)]
pub enum LOKind {
    Definition,
    Example,
    Problem(CognitiveDimension),
    SubProblem(CognitiveDimension),
}

/// Learning objects by kind; a problem records whether it is a
/// sub-problem.
pub struct LOs {
    pub definitions: Vec<String>,
    pub examples: Vec<String>,
    pub problems: Vec<(bool, String, CognitiveDimension)>,
}

/// The definitions among `s`, in order.
pub open spec fn definitions_of(s: Seq<(String, LOKind)>) -> Seq<String>
    decreases s.len(),
{
    if s.len() == 0 {
        Seq::empty()
    } else {
        let rest = definitions_of(s.drop_last());
        if s.last().1 is Definition {
            rest.push(s.last().0)
        } else {
            rest
        }
    }
}

/// The examples among `s`, in order.
pub open spec fn examples_of(s: Seq<(String, LOKind)>) -> Seq<String>
    decreases s.len(),
{
    if s.len() == 0 {
        Seq::empty()
    } else {
        let rest = examples_of(s.drop_last());
        if s.last().1 is Example {
            rest.push(s.last().0)
        } else {
            rest
        }
    }
}

/// The problems among `s`, in order, each with whether it is a
/// sub-problem.
pub open spec fn problems_of(s: Seq<(String, LOKind)>) -> Seq<(bool, String, CognitiveDimension)>
    decreases s.len(),
{
    if s.len() == 0 {
        Seq::empty()
    } else {
        let rest = problems_of(s.drop_last());
        match s.last().1 {
            LOKind::Problem(cd) => rest.push((false, s.last().0, cd)),
            LOKind::SubProblem(cd) => rest.push((true, s.last().0, cd)),
            _ => rest,
        }
    }
}

/// Sorts learning objects by kind, keeping their order.
pub fn lo_sort(los: Vec<(String, LOKind)>) -> (r: LOs)
    ensures
        r.definitions@ == definitions_of(los@),
        r.examples@ == examples_of(los@),
        r.problems@ == problems_of(los@),
{
    let mut definitions: Vec<String> = Vec::new();
    let mut examples: Vec<String> = Vec::new();
    let mut problems: Vec<(bool, String, CognitiveDimension)> = Vec::new();
    let mut i: usize = 0;
    assert(los@.take(0) =~= Seq::<(String, LOKind)>::empty());
    while i < los.len()
        invariant
            i <= los@.len(),
            definitions@ == definitions_of(los@.take(i as int)),
            examples@ == examples_of(los@.take(i as int)),
            problems@ == problems_of(los@.take(i as int)),
        decreases los@.len() - i,
    {
        proof {
            assert(los@.take(i + 1).drop_last() =~= los@.take(i as int));
            assert(los@.take(i + 1).last() == los@[i as int]);
        }
        let uri = los[i].0.clone();
        match los[i].1 {
            LOKind::Definition => definitions.push(uri),
            LOKind::Example => examples.push(uri),
            LOKind::Problem(cd) => problems.push((false, uri, cd)),
            LOKind::SubProblem(cd) => problems.push((true, uri, cd)),
        }
        i = i + 1;
    }
    assert(los@.take(i as int) =~= los@);
    LOs { definitions, examples, problems }
}

} // verus!
