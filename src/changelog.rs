use vstd::prelude::*;

use crate::buckets::{HierarchicalBuckets, KeyPath, key_path};
use crate::error::Error;
use crate::message::ConventionalMessage;
use crate::snapshots::{BranchName, RepositoryOrigin};

verus! {

/// A grouping field: what a changelog entry is grouped by.
#[derive(Debug, Clone, Copy, PartialEq, Eq)]
pub enum CommitField {
    Scope,
    Branch,
    Origin,
    CommitType,
}

impl CommitField {
    /// The name of the field on the command line.
    pub open spec fn name_spec(self) -> Seq<char> {
        match self {
            CommitField::Scope => seq!['s', 'c', 'o', 'p', 'e'],
            CommitField::Branch => seq!['b', 'r', 'a', 'n', 'c', 'h'],
            CommitField::Origin => seq!['o', 'r', 'i', 'g', 'i', 'n'],
            CommitField::CommitType => seq!['c', 'o', 'm', 'm', 'i', 't', '-', 't', 'y', 'p', 'e'],
        }
    }

    pub fn name(&self) -> (r: &str)
        ensures
            r@ == self.name_spec(),
    {
        proof {
            lemma_field_names();
        }
        match self {
            CommitField::Scope => "scope",
            CommitField::Branch => "branch",
            CommitField::Origin => "origin",
            CommitField::CommitType => "commit-type",
        }
    }

    /// The field named `s`; an unknown name is an `InvalidSelector` error.
    pub fn from_str(s: &str) -> (r: Result<CommitField, Error>)
        ensures
            r matches Ok(f) ==> f.name_spec() == s@,
            r is Err ==> (r matches Err(Error::InvalidSelector(t)) && t@ == s@),
            (exists|f: CommitField| f.name_spec() == s@) ==> r is Ok,
    {
        proof {
            lemma_field_names();
        }
        let w = s.to_owned();
        if w == "scope".to_owned() {
            Ok(CommitField::Scope)
        } else if w == "branch".to_owned() {
            Ok(CommitField::Branch)
        } else if w == "origin".to_owned() {
            Ok(CommitField::Origin)
        } else if w == "commit-type".to_owned() {
            Ok(CommitField::CommitType)
        } else {
            Err(Error::InvalidSelector(w))
        }
    }
}

proof fn lemma_field_names()
    ensures
        "scope"@ == seq!['s', 'c', 'o', 'p', 'e'],
        "branch"@ == seq!['b', 'r', 'a', 'n', 'c', 'h'],
        "origin"@ == seq!['o', 'r', 'i', 'g', 'i', 'n'],
        "commit-type"@ == seq!['c', 'o', 'm', 'm', 'i', 't', '-', 't', 'y', 'p', 'e'],
{
    reveal_strlit("scope");
    reveal_strlit("branch");
    reveal_strlit("origin");
    reveal_strlit("commit-type");
    assert("scope"@ =~= seq!['s', 'c', 'o', 'p', 'e']);
    assert("branch"@ =~= seq!['b', 'r', 'a', 'n', 'c', 'h']);
    assert("origin"@ =~= seq!['o', 'r', 'i', 'g', 'i', 'n']);
    assert("commit-type"@ =~= seq!['c', 'o', 'm', 'm', 'i', 't', '-', 't', 'y', 'p', 'e']);
}

/// A conventional message found on a branch of a repository.
#[derive(Debug, Clone, PartialEq, Eq)]
pub struct ChangeLogEntry {
    origin: RepositoryOrigin,
    branch: BranchName,
    message: ConventionalMessage,
}

impl ChangeLogEntry {
    pub closed spec fn origin_spec(&self) -> Seq<char> {
        self.origin@
    }

    pub closed spec fn branch_spec(&self) -> Seq<char> {
        self.branch@
    }

    pub closed spec fn message_spec(&self) -> ConventionalMessage {
        self.message
    }

    /// The text of `field` for this entry: the scope (empty when there is
    /// none), the branch name, the origin or the commit type word.
    pub open spec fn field_text(&self, field: CommitField) -> Seq<char> {
        match field {
            CommitField::Scope => match self.message_spec().scope {
                Some(s) => s@,
                None => seq![],
            },
            CommitField::Branch => self.branch_spec(),
            CommitField::Origin => self.origin_spec(),
            CommitField::CommitType => self.message_spec().ctype.word(),
        }
    }

    pub fn new(origin: RepositoryOrigin, branch: BranchName, message: ConventionalMessage) -> (r:
        ChangeLogEntry)
        ensures
            r.origin_spec() == origin@,
            r.branch_spec() == branch@,
            r.message_spec() == message,
    {
        ChangeLogEntry { origin, branch, message }
    }

    pub fn origin(&self) -> (r: &RepositoryOrigin)
        ensures
            r@ == self.origin_spec(),
    {
        &self.origin
    }

    pub fn branch(&self) -> (r: &BranchName)
        ensures
            r@ == self.branch_spec(),
    {
        &self.branch
    }

    pub fn message(&self) -> (r: &ConventionalMessage)
        ensures
            *r == self.message_spec(),
    {
        &self.message
    }

    /// The text of `field` for this entry.
    pub fn get(&self, field: &CommitField) -> (r: &str)
        ensures
            r@ == self.field_text(*field),
    {
        match field {
            CommitField::Scope => match &self.message.scope {
                Some(scope) => scope.as_str(),
                None => {
                    proof {
                        reveal_strlit("");
                    }
                    assert(""@ =~= seq![]);
                    ""
                },
            },
            CommitField::Branch => self.branch.as_str(),
            CommitField::Origin => self.origin.as_str(),
            CommitField::CommitType => self.message.ctype.as_str(),
        }
    }
}

/// The key path of `entry` for the grouping fields `fields`.
pub open spec fn keys_for(entry: ChangeLogEntry, fields: Seq<CommitField>) -> KeyPath {
    fields.map_values(|f: CommitField| entry.field_text(f))
}

/// Changelog entries grouped by an ordered list of fields.
pub struct ChangeLog {
    group_by: Vec<CommitField>,
    index: HierarchicalBuckets<ChangeLogEntry>,
}

impl View for ChangeLog {
    type V = Seq<(KeyPath, ChangeLogEntry)>;

    closed spec fn view(&self) -> Seq<(KeyPath, ChangeLogEntry)> {
        self.index@
    }
}

impl ChangeLog {
    pub closed spec fn wf(&self) -> bool {
        &&& self.index.wf()
        &&& self.index.depth_spec() == self.group_by@.len()
    }

    pub closed spec fn fields(&self) -> Seq<CommitField> {
        self.group_by@
    }

    /// An empty changelog grouped by `group_by`, in that order.
    pub fn new(group_by: Vec<CommitField>) -> (r: ChangeLog)
        ensures
            r.wf(),
            r.fields() == group_by@,
            r@ == Seq::<(KeyPath, ChangeLogEntry)>::empty(),
    {
        let depth = group_by.len();
        ChangeLog { group_by, index: HierarchicalBuckets::new(depth) }
    }

    /// Files `entry` under its key path for the grouping fields.
    pub fn insert(&mut self, entry: ChangeLogEntry) -> (r: Result<(), Error>)
        requires
            old(self).wf(),
        ensures
            final(self).wf(),
            final(self).fields() == old(self).fields(),
            r is Ok,
            final(self)@ == old(self)@.push((keys_for(entry, old(self).fields()), entry)),
    {
        let mut keys: Vec<String> = Vec::new();
        let n = self.group_by.len();
        let mut i: usize = 0;
        while i < n
            invariant
                n == self.group_by.len(),
                i <= n,
                key_path(keys@) == keys_for(entry, self.group_by@).take(i as int),
            decreases n - i,
        {
            let ghost before = keys@;
            keys.push(entry.get(&self.group_by[i]).to_owned());
            proof {
                assert(key_path(keys@) =~= key_path(before).push(
                    entry.field_text(self.group_by@[i as int]),
                ));
                assert(keys_for(entry, self.group_by@).take(i + 1) =~= keys_for(
                    entry,
                    self.group_by@,
                ).take(i as int).push(entry.field_text(self.group_by@[i as int])));
            }
            i = i + 1;
        }
        proof {
            assert(keys_for(entry, self.group_by@).take(n as int) =~= keys_for(
                entry,
                self.group_by@,
            ));
        }
        self.index.insert(keys, entry)
    }

    pub fn group_by(&self) -> (r: &Vec<CommitField>)
        ensures
            r@ == self.fields(),
    {
        &self.group_by
    }

    /// The grouping tree.
    pub fn index(&self) -> (r: &HierarchicalBuckets<ChangeLogEntry>)
        requires
            self.wf(),
        ensures
            r.wf(),
            r@ == self@,
            r.depth_spec() == self.fields().len(),
    {
        &self.index
    }
}

} // verus!
