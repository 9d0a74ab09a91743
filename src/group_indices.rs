use vstd::prelude::*;
use crate::pattern::{Group, GroupRef, Pattern, named, sat};

verus! {

/// Looking a capture group up by name finds the group that numbering finds:
/// when capture group `k + 1` is the only one named `name`, any capture group
/// of that name, such as the one `Pattern::group_by_name` returns, is that
/// group.
pub proof fn name_lookup_matches_numbering(p: Pattern, name: Seq<char>, k: int, g: Group)
    requires
        0 <= k < p.captures().len(),
        named(p.captures()[k], name),
        forall|j: int|
            0 <= j < p.captures().len() && j != k ==> !named(#[trigger] p.captures()[j], name),
        p.captures().contains(g),
        named(g, name),
    ensures
        g == p.captures()[k],
{
    let j = choose|j: int| 0 <= j < p.captures().len() && p.captures()[j] == g;
    assert(named(p.captures()[j], name));
}

/// The capture groups of a pattern, numbered once: entry `k - 1` is capture
/// group `k` in document order.
#[derive(Debug)]
pub struct GroupIndices<'a> {
    pub pat: &'a Pattern,
    pub indexed: Vec<&'a Group>,
}

impl<'a> GroupIndices<'a> {
    /// Numbers the capture groups of `pat` (at most `usize::MAX` of them).
    pub fn new(pat: &'a Pattern) -> (r: GroupIndices<'a>)
        ensures
            r.pat == pat,
            r.indexed@.len() == sat(pat.captures().len()),
            forall|j: int| 0 <= j < r.indexed@.len() ==> *r.indexed@[j] == pat.captures()[j],
    {
        let mut indexed: Vec<&'a Group> = Vec::new();
        let mut k: usize = 0;
        loop
            invariant
                indexed@.len() == k,
                k <= pat.captures().len(),
                forall|j: int| 0 <= j < k ==> *indexed@[j] == pat.captures()[j],
            ensures
                indexed@.len() == sat(pat.captures().len()),
                forall|j: int| 0 <= j < indexed@.len() ==> *indexed@[j] == pat.captures()[j],
            decreases pat.captures().len() - k,
        {
            if k == usize::MAX {
                break;
            }
            match pat.find(k) {
                Ok(g) => {
                    indexed.push(g);
                    k += 1;
                },
                Err(_) => {
                    break;
                },
            }
        }
        GroupIndices { pat, indexed }
    }

    /// Capture group `n`: 0 is the whole pattern.
    pub fn get(&self, n: usize) -> (r: Option<GroupRef<'a>>)
        ensures
            n == 0 ==> (r matches Some(GroupRef::Whole(p)) && p == self.pat),
            n > 0 ==> (r is Some <==> n <= self.indexed@.len()),
            n > 0 && n <= self.indexed@.len() ==> (r matches Some(GroupRef::Group(g)) && g
                == self.indexed@[n - 1]),
    {
        if n == 0 {
            Some(GroupRef::Whole(self.pat))
        } else if n <= self.indexed.len() {
            Some(GroupRef::Group(self.indexed[n - 1]))
        } else {
            None
        }
    }

    /// A capture group with the given name, if there is one.
    pub fn named(&self, name: &str) -> (r: Option<&'a Group>)
        ensures
            r matches Some(g) ==> self.pat.captures().contains(*g) && named(*g, name@),
            r is None ==> forall|j: int|
                0 <= j < self.pat.captures().len() ==> !named(#[trigger] self.pat.captures()[j], name@),
    {
        self.pat.group_by_name(name)
    }

    /// How many capture groups were numbered.
    pub fn len(&self) -> (r: usize)
        ensures
            r == self.indexed@.len(),
    {
        self.indexed.len()
    }
}

} // verus!
