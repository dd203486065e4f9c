use vstd::prelude::*;

use crate::project::names_view;
use crate::snapshots::{BranchName, RepositoryOrigin};

verus! {

/// What a configuration document lists: the default branch and the
/// projects to follow.
#[derive(Debug, Clone, PartialEq, Eq)]
pub struct Configuration {
    pub default_branch: BranchName,
    pub projects: Vec<Project>,
}

/// One configured project.
#[derive(Debug, Clone, PartialEq, Eq)]
pub struct Project {
    pub name: String,
    pub origin: RepositoryOrigin,
    /// Branches to follow; the default branch when absent.
    pub branches: Option<Vec<BranchName>>,
    /// Only messages with a `team` trailer of this value are kept.
    pub team: Option<String>,
}

/// The longest byte length among the names of `ps`, 0 for none.
pub open spec fn max_name_len(ps: Seq<Project>) -> nat
    decreases ps.len(),
{
    if ps.len() == 0 {
        0
    } else {
        let rest = max_name_len(ps.drop_last());
        let here = vstd::utf8::encode_utf8(ps.last().name@).len();
        if here > rest {
            here
        } else {
            rest
        }
    }
}

impl Configuration {
    /// The longest project name, in bytes, for aligning progress labels.
    pub fn get_branch_name_max_len(&self) -> (r: usize)
        ensures
            r == max_name_len(self.projects@),
    {
        let n = self.projects.len();
        let mut best: usize = 0;
        let mut i: usize = 0;
        proof {
            assert(self.projects@.take(0) =~= seq![]);
        }
        while i < n
            invariant
                n == self.projects.len(),
                i <= n,
                best == max_name_len(self.projects@.take(i as int)),
            decreases n - i,
        {
            let here = self.projects[i].name.as_str().as_bytes().len();
            proof {
                let t = self.projects@.take(i + 1);
                assert(t.drop_last() =~= self.projects@.take(i as int));
                assert(t.last() == self.projects@[i as int]);
                assert(here == vstd::utf8::encode_utf8(self.projects@[i as int].name@).len());
            }
            if here > best {
                best = here;
            }
            i = i + 1;
        }
        proof {
            assert(self.projects@.take(n as int) =~= self.projects@);
        }
        best
    }
}

impl Project {
    /// The branches to follow: those configured, else `default`.
    pub fn get_branches_name(&self, default: &[BranchName]) -> (r: Vec<BranchName>)
        ensures
            names_view(r@) == match self.branches {
                Some(b) => names_view(b@),
                None => names_view(default@),
            },
    {
        let source: &[BranchName] = match &self.branches {
            Some(b) => b.as_slice(),
            None => default,
        };
        let mut out: Vec<BranchName> = Vec::new();
        let n = source.len();
        let mut i: usize = 0;
        while i < n
            invariant
                n == source@.len(),
                i <= n,
                names_view(out@) == names_view(source@).take(i as int),
            decreases n - i,
        {
            let ghost before = out@;
            out.push(source[i].duplicate());
            proof {
                assert(names_view(out@) =~= names_view(before).push(source@[i as int]@));
                assert(names_view(source@).take(i + 1) =~= names_view(source@).take(i as int).push(
                    source@[i as int]@,
                ));
            }
            i = i + 1;
        }
        proof {
            assert(names_view(source@).take(n as int) =~= names_view(source@));
        }
        out
    }
}

/// The default branch when a configuration names none: `master`.
pub fn default_branch() -> (r: BranchName)
    ensures
        r@ == seq!['m', 'a', 's', 't', 'e', 'r'],
{
    proof {
        reveal_strlit("master");
        assert("master"@ =~= seq!['m', 'a', 's', 't', 'e', 'r']);
    }
    BranchName::new("master".to_owned())
}

} // verus!
