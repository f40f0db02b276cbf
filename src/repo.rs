//! Repository records as the listing API returns them, and the output row
//! that each one becomes.
use vstd::prelude::*;

verus! {

/// One repository of an organization, as decoded from a listing page.
#[derive(Debug)]
pub struct Repo {
    pub name: String,
    pub topics: Vec<String>,
    pub archived: bool,
    pub language: Option<String>,
    /// Size in kilobytes.
    pub size: u32,
}

/// The tabular projection of a repository: its topics are joined into one
/// space-separated field.
#[derive(Debug)]
pub struct RepoCsvRow {
    pub name: String,
    pub topics: String,
    pub language: Option<String>,
    pub size: u32,
}

/// The topics written one after another, separated by single spaces.
pub open spec fn joined(ts: Seq<String>) -> Seq<char>
    decreases ts.len(),
{
    if ts.len() == 0 {
        Seq::empty()
    } else if ts.len() == 1 {
        ts[0]@
    } else {
        joined(ts.drop_last()) + seq![' '] + ts.last()@
    }
}

/// Joins topics with single spaces.
pub fn join_topics(topics: &Vec<String>) -> (r: String)
    ensures
        r@ == joined(topics@),
{
    let mut r = String::new();
    let mut i: usize = 0;
    while i < topics.len()
        invariant
            i <= topics@.len(),
            r@ == joined(topics@.subrange(0, i as int)),
        decreases topics@.len() - i,
    {
        let ghost next = topics@.subrange(0, i + 1);
        assert(next.drop_last() =~= topics@.subrange(0, i as int));
        if i > 0 {
            r.append(" ");
        }
        r.append(topics[i].as_str());
        proof {
            reveal_strlit(" ");
        }
        assert(r@ =~= joined(next));
        i = i + 1;
    }
    assert(topics@.subrange(0, topics@.len() as int) =~= topics@);
    r
}

impl Repo {
    /// The output row of this repository.
    pub fn to_row(self) -> (r: RepoCsvRow)
        ensures
            r.name == self.name,
            r.topics@ == joined(self.topics@),
            r.language == self.language,
            r.size == self.size,
    {
        let topics = join_topics(&self.topics);
        RepoCsvRow { name: self.name, topics, language: self.language, size: self.size }
    }
}

} // verus!
