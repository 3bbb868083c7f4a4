//! The three positions of a triple, each of which leads one index.

use vstd::prelude::*;
use vstd::string::*;

use crate::Triple;

verus! {

/// The position that leads an index: its rows are addressed by the ids of
/// that position, and each row lists the two other components.
#[derive(Clone, Copy, Debug, PartialEq, Eq, Structural)]
pub enum Index {
    Subject,
    Predicate,
    Object,
}

impl Index {
    /// The component of `triple` at this position.
    pub open spec fn component(self, triple: Triple) -> u64 {
        match self {
            Index::Subject => triple[0],
            Index::Predicate => triple[1],
            Index::Object => triple[2],
        }
    }

    /// The two other components of `triple`, in the order of the triple.
    pub open spec fn residual(self, triple: Triple) -> (u64, u64) {
        match self {
            Index::Subject => (triple[1], triple[2]),
            Index::Predicate => (triple[0], triple[2]),
            Index::Object => (triple[0], triple[1]),
        }
    }

    /// The triple that has `id` at this position and `first`, `second` at the
    /// two others.
    pub open spec fn expand(self, id: u64, first: u64, second: u64) -> Triple {
        match self {
            Index::Subject => [id, first, second],
            Index::Predicate => [first, id, second],
            Index::Object => [first, second, id],
        }
    }

    /// The two positions that fill the columns of this index, in column order.
    pub open spec fn columns(self) -> (Index, Index) {
        match self {
            Index::Subject => (Index::Predicate, Index::Object),
            Index::Predicate => (Index::Subject, Index::Object),
            Index::Object => (Index::Subject, Index::Predicate),
        }
    }

    /// The name under which this index and its vocabulary are persisted.
    pub open spec fn name(self) -> Seq<char> {
        match self {
            Index::Subject => "subject"@,
            Index::Predicate => "predicate"@,
            Index::Object => "object"@,
        }
    }

    pub fn triple_to_component(&self, triple: &Triple) -> (component: u64)
        ensures
            component == self.component(*triple),
    {
        match self {
            Index::Subject => triple[0],
            Index::Predicate => triple[1],
            Index::Object => triple[2],
        }
    }

    pub fn triple_to_pair(&self, triple: &Triple) -> (pair: (u64, u64))
        ensures
            pair == self.residual(*triple),
    {
        match self {
            Index::Subject => (triple[1], triple[2]),
            Index::Predicate => (triple[0], triple[2]),
            Index::Object => (triple[0], triple[1]),
        }
    }

    pub fn pair_to_triple(&self, id: u64, first: u64, second: u64) -> (triple: Triple)
        ensures
            triple == self.expand(id, first, second),
    {
        match self {
            Index::Subject => [id, first, second],
            Index::Predicate => [first, id, second],
            Index::Object => [first, second, id],
        }
    }

    /// The name of this position, as it is written in the store.
    pub fn to_string(&self) -> (name: String)
        ensures
            name@ == self.name(),
    {
        match self {
            Index::Subject => String::from_str("subject"),
            Index::Predicate => String::from_str("predicate"),
            Index::Object => String::from_str("object"),
        }
    }

    /// The names of the two columns of this index, in column order.
    pub fn dimension_names(&self) -> (names: Vec<String>)
        ensures
            names@.len() == 2,
            names@[0]@ == self.columns().0.name(),
            names@[1]@ == self.columns().1.name(),
    {
        let (first, second) = match self {
            Index::Subject => (Index::Predicate, Index::Object),
            Index::Predicate => (Index::Subject, Index::Object),
            Index::Object => (Index::Subject, Index::Predicate),
        };
        let mut names: Vec<String> = Vec::new();
        names.push(first.to_string());
        names.push(second.to_string());
        names
    }

    /// The path of the array that holds this index.
    pub fn array_path(&self) -> (path: String)
        ensures
            path@ == "/"@ + self.name(),
    {
        let mut path = String::from_str("/");
        let name = self.to_string();
        path.append(name.as_str());
        path
    }
}

/// Putting the residual of a triple back beside its leading component gives
/// the triple again.
pub proof fn lemma_expand_residual(index: Index, triple: Triple)
    ensures
        index.expand(
            index.component(triple),
            index.residual(triple).0,
            index.residual(triple).1,
        ) == triple,
        index.component(
            index.expand(index.component(triple), index.residual(triple).0, index.residual(triple).1),
        ) == index.component(triple),
{
    let back = index.expand(
        index.component(triple),
        index.residual(triple).0,
        index.residual(triple).1,
    );
    assert(back =~= triple);
}

} // verus!
