use vstd::prelude::*;

use crate::changelog::ChangeLogEntry;
use crate::message::{ConventionalMessage, MessageParts, conventional_parts};
use crate::snapshots::{BranchName, CommitHash, RepositoryOrigin, RepositorySnapshot};

verus! {

/// A commit as a history walk reports it.
#[derive(Debug, Clone)]
pub struct CommitRecord {
    pub id: CommitHash,
    pub parent_count: usize,
    /// The raw message, absent when it is not valid UTF-8.
    pub message: Option<String>,
}

pub open spec fn ids_view(v: Seq<CommitHash>) -> Seq<Seq<char>> {
    v.map_values(|c: CommitHash| c@)
}

/// Commits that a walk must not enter: the walk stops at each of them and
/// at all of their ancestors.
#[derive(Debug, Clone)]
pub struct Sentinels {
    ids: Vec<CommitHash>,
}

impl View for Sentinels {
    type V = Set<Seq<char>>;

    closed spec fn view(&self) -> Set<Seq<char>> {
        ids_view(self.ids@).to_set()
    }
}

impl Sentinels {
    pub closed spec fn wf(&self) -> bool {
        ids_view(self.ids@).no_duplicates()
    }

    pub fn new() -> (r: Sentinels)
        ensures
            r.wf(),
            r@ == Set::<Seq<char>>::empty(),
    {
        let r = Sentinels { ids: Vec::new() };
        assert(ids_view(r.ids@) =~= seq![]);
        assert(ids_view(r.ids@).to_set() =~= Set::empty());
        r
    }

    pub fn contains(&self, id: &CommitHash) -> (r: bool)
        ensures
            r == self@.contains(id@),
    {
        let n = self.ids.len();
        let mut i: usize = 0;
        while i < n
            invariant
                n == self.ids.len(),
                i <= n,
                forall|j: int| 0 <= j < i ==> #[trigger] ids_view(self.ids@)[j] != id@,
            decreases n - i,
        {
            if self.ids[i].as_str().to_owned() == id.as_str().to_owned() {
                assert(ids_view(self.ids@)[i as int] == id@);
                return true;
            }
            i = i + 1;
        }
        false
    }

    pub fn insert(&mut self, id: CommitHash)
        requires
            old(self).wf(),
        ensures
            final(self).wf(),
            final(self)@ == old(self)@.insert(id@),
    {
        if self.contains(&id) {
            assert(self@.insert(id@) =~= self@);
            return ;
        }
        let ghost before = self.ids@;
        self.ids.push(id);
        proof {
            assert(ids_view(self.ids@) =~= ids_view(before).push(id@));
            assert(ids_view(before).push(id@) =~= ids_view(before) + seq![id@]);
            Seq::<Seq<char>>::lemma_to_set_insert_commutes(ids_view(before), id@);
            assert(ids_view(self.ids@).no_duplicates()) by {
                assert forall|x: int, y: int|
                    0 <= x < ids_view(self.ids@).len() && 0 <= y < ids_view(self.ids@).len() && x
                        != y implies ids_view(self.ids@)[x] != ids_view(self.ids@)[y] by {
                    if x < before.len() && y < before.len() {
                    } else if x < before.len() {
                        assert(ids_view(before).contains(ids_view(before)[x]));
                    } else if y < before.len() {
                        assert(ids_view(before).contains(ids_view(before)[y]));
                    }
                }
            }
        }
    }

    /// Adds every id of `other`.
    pub fn extend(&mut self, other: &Sentinels)
        requires
            old(self).wf(),
        ensures
            final(self).wf(),
            final(self)@ == old(self)@.union(other@),
    {
        let n = other.ids.len();
        let mut i: usize = 0;
        let ghost start = self@;
        proof {
            assert(ids_view(other.ids@).take(0).to_set() =~= Set::empty());
            assert(start.union(Set::empty()) =~= start);
        }
        while i < n
            invariant
                n == other.ids.len(),
                i <= n,
                self.wf(),
                self@ == start.union(ids_view(other.ids@).take(i as int).to_set()),
            decreases n - i,
        {
            self.insert(other.ids[i].duplicate());
            proof {
                let o = ids_view(other.ids@);
                assert(o.take(i + 1) =~= o.take(i as int).push(o[i as int]));
                assert(o.take(i as int).push(o[i as int]) =~= o.take(i as int) + seq![o[i as int]]);
                Seq::<Seq<char>>::lemma_to_set_insert_commutes(o.take(i as int), o[i as int]);
                assert(self@ =~= start.union(o.take(i + 1).to_set()));
            }
            i = i + 1;
        }
        proof {
            assert(ids_view(other.ids@).take(n as int) =~= ids_view(other.ids@));
        }
    }

    /// The ids, each once.
    pub fn ids(&self) -> (r: &Vec<CommitHash>)
        ensures
            ids_view(r@).to_set() == self@,
    {
        &self.ids
    }
}

/// The message of `c` is kept: it is a conventional message and, when a
/// team is given, carries a `team` trailer with exactly that value.
pub open spec fn kept_parts_of(c: CommitRecord, team: Option<Seq<char>>) -> Option<MessageParts> {
    match c.message {
        None => None,
        Some(m) => match conventional_parts(m@) {
            None => None,
            Some(p) => match team {
                None => Some(p),
                Some(t) => if p.tail.trailers.contains((seq!['t', 'e', 'a', 'm'], t)) {
                    Some(p)
                } else {
                    None
                },
            },
        },
    }
}

/// The parts of the kept messages of `commits`, in walk order.
pub open spec fn kept_messages(commits: Seq<CommitRecord>, team: Option<Seq<char>>) -> Seq<
    MessageParts,
>
    decreases commits.len(),
{
    if commits.len() == 0 {
        seq![]
    } else {
        let prev = kept_messages(commits.drop_last(), team);
        match kept_parts_of(commits.last(), team) {
            Some(p) => prev.push(p),
            None => prev,
        }
    }
}

/// The ids of the merge commits (more than one parent) of `commits`.
pub open spec fn merge_ids(commits: Seq<CommitRecord>) -> Set<Seq<char>> {
    Set::new(
        |id: Seq<char>|
            exists|i: int|
                0 <= i < commits.len() && #[trigger] commits[i].parent_count > 1 && commits[i].id@
                    == id,
    )
}

pub open spec fn opt_view(o: Option<String>) -> Option<Seq<char>> {
    match o {
        Some(s) => Some(s@),
        None => None,
    }
}

fn has_team_trailer(message: &ConventionalMessage, team: &String) -> (r: bool)
    ensures
        r == crate::message::pairs_view(message.trailers@).contains((seq!['t', 'e', 'a', 'm'], team@)),
{
    proof {
        reveal_strlit("team");
        assert("team"@ =~= seq!['t', 'e', 'a', 'm']);
    }
    let key = "team".to_owned();
    let n = message.trailers.len();
    let ghost pv = crate::message::pairs_view(message.trailers@);
    let mut i: usize = 0;
    while i < n
        invariant
            n == message.trailers.len(),
            pv == crate::message::pairs_view(message.trailers@),
            key@ == seq!['t', 'e', 'a', 'm'],
            i <= n,
            forall|j: int| 0 <= j < i ==> #[trigger] pv[j] != (seq!['t', 'e', 'a', 'm'], team@),
        decreases n - i,
    {
        if message.trailers[i].0 == key && message.trailers[i].1 == *team {
            assert(pv[i as int] == (seq!['t', 'e', 'a', 'm'], team@));
            return true;
        }
        i = i + 1;
    }
    false
}

/// Goes through the commits of one walk in order: collects the ids of merge
/// commits, and the conventional messages that the team filter keeps.
pub fn extract_messages(commits: &Vec<CommitRecord>, team: &Option<String>) -> (r: (
    Vec<ConventionalMessage>,
    Sentinels,
))
    ensures
        r.1.wf(),
        r.1@ == merge_ids(commits@),
        r.0@.len() == kept_messages(commits@, opt_view(*team)).len(),
        forall|j: int|
            0 <= j < r.0@.len() ==> (#[trigger] r.0@[j]).denotes(
                kept_messages(commits@, opt_view(*team))[j],
            ),
{
    let mut messages: Vec<ConventionalMessage> = Vec::new();
    let mut sentinels = Sentinels::new();
    let ghost t = opt_view(*team);
    let n = commits.len();
    let mut i: usize = 0;
    proof {
        assert(merge_ids(commits@.take(0)) =~= Set::empty());
    }
    while i < n
        invariant
            n == commits.len(),
            t == opt_view(*team),
            i <= n,
            sentinels.wf(),
            sentinels@ == merge_ids(commits@.take(i as int)),
            messages@.len() == kept_messages(commits@.take(i as int), t).len(),
            forall|j: int|
                0 <= j < messages@.len() ==> (#[trigger] messages@[j]).denotes(
                    kept_messages(commits@.take(i as int), t)[j],
                ),
        decreases n - i,
    {
        let c = &commits[i];
        let ghost pre = commits@.take(i as int);
        let ghost post = commits@.take(i + 1);
        proof {
            assert(post.drop_last() =~= pre);
            assert(post.last() == commits@[i as int]);
        }
        if c.parent_count > 1 {
            sentinels.insert(c.id.duplicate());
        }
        proof {
            assert(merge_ids(post) =~= if c.parent_count > 1 {
                merge_ids(pre).insert(c.id@)
            } else {
                merge_ids(pre)
            }) by {
                assert forall|id: Seq<char>| merge_ids(post).contains(id) implies (if c.parent_count > 1 {
                    merge_ids(pre).insert(c.id@)
                } else {
                    merge_ids(pre)
                }).contains(id) by {
                    let k = choose|k: int|
                        0 <= k < post.len() && #[trigger] post[k].parent_count > 1 && post[k].id@ == id;
                    if k < i {
                        assert(pre[k] == post[k]);
                    }
                }
                assert forall|id: Seq<char>| merge_ids(pre).contains(id) implies merge_ids(
                    post,
                ).contains(id) by {
                    let k = choose|k: int|
                        0 <= k < pre.len() && #[trigger] pre[k].parent_count > 1 && pre[k].id@ == id;
                    assert(pre[k] == post[k]);
                }
                if c.parent_count > 1 {
                    assert(post[i as int].parent_count > 1);
                }
            }
        }
        let ghost before = messages@;
        let mut kept: Option<ConventionalMessage> = None;
        if let Some(raw) = &c.message {
            if let Ok(message) = ConventionalMessage::parse(raw.as_str()) {
                let keep = match team {
                    Some(name) => has_team_trailer(&message, name),
                    None => true,
                };
                if keep {
                    kept = Some(message);
                }
            }
        }
        proof {
            if c.message is Some && conventional_parts(c.message->Some_0@) is None {
                assert(kept is None);
            }
        }
        match kept {
            Some(message) => {
                messages.push(message);
            },
            None => {},
        }
        proof {
            assert(kept_messages(post, t) == match kept_parts_of(commits@[i as int], t) {
                Some(p) => kept_messages(pre, t).push(p),
                None => kept_messages(pre, t),
            });
            assert forall|j: int| 0 <= j < messages@.len() implies (
            #[trigger] messages@[j]).denotes(kept_messages(post, t)[j]) by {
                if j < before.len() {
                    assert(messages@[j] == before[j]);
                }
            }
        }
        i = i + 1;
    }
    proof {
        assert(commits@.take(n as int) =~= commits@);
    }
    (messages, sentinels)
}

pub open spec fn names_view(v: Seq<BranchName>) -> Seq<Seq<char>> {
    v.map_values(|b: BranchName| b@)
}

/// The decisions of one repository's run: its branches are walked one after
/// the other, in the configured order. Each walk hides the sentinels known so
/// far: the heads that the previous snapshot recorded, and every merge commit
/// that an earlier branch's walk came across. Sentinels are only ever added.
pub struct RepositoryRun {
    origin: RepositoryOrigin,
    branches: Vec<BranchName>,
    team: Option<String>,
    sentinels: Sentinels,
    next: usize,
    entries: Vec<ChangeLogEntry>,
}

impl RepositoryRun {
    pub closed spec fn wf(&self) -> bool {
        &&& self.sentinels.wf()
        &&& self.next <= self.branches@.len()
    }

    pub closed spec fn origin_spec(&self) -> Seq<char> {
        self.origin@
    }

    pub closed spec fn branch_names(&self) -> Seq<Seq<char>> {
        names_view(self.branches@)
    }

    pub closed spec fn team_spec(&self) -> Option<Seq<char>> {
        opt_view(self.team)
    }

    /// Ids that the next walk hides.
    pub closed spec fn sentinel_set(&self) -> Set<Seq<char>> {
        self.sentinels@
    }

    /// How many branches have been walked.
    pub closed spec fn walked(&self) -> nat {
        self.next as nat
    }

    pub closed spec fn entries_spec(&self) -> Seq<ChangeLogEntry> {
        self.entries@
    }

    /// A run over `branches` of the repository at `origin`. The sentinels
    /// start as the heads that `previous`, the repository's snapshot of the
    /// last run, recorded.
    pub fn new(
        origin: RepositoryOrigin,
        branches: Vec<BranchName>,
        team: Option<String>,
        previous: Option<&RepositorySnapshot>,
    ) -> (r: RepositoryRun)
        requires
            previous matches Some(p) ==> p.wf(),
        ensures
            r.wf(),
            r.origin_spec() == origin@,
            r.branch_names() == names_view(branches@),
            r.team_spec() == opt_view(team),
            r.walked() == 0,
            r.entries_spec() == Seq::<ChangeLogEntry>::empty(),
            previous matches Some(p) ==> r.sentinel_set() == p@.values(),
            previous is None ==> r.sentinel_set() == Set::<Seq<char>>::empty(),
    {
        let mut sentinels = Sentinels::new();
        if let Some(p) = previous {
            let heads = p.heads();
            let n = heads.len();
            let mut i: usize = 0;
            proof {
                assert(ids_view(heads@).take(0).to_set() =~= Set::empty());
            }
            while i < n
                invariant
                    n == heads.len(),
                    i <= n,
                    sentinels.wf(),
                    sentinels@ == ids_view(heads@).take(i as int).to_set(),
                decreases n - i,
            {
                sentinels.insert(heads[i].duplicate());
                proof {
                    let o = ids_view(heads@);
                    assert(o.take(i + 1) =~= o.take(i as int) + seq![o[i as int]]);
                    Seq::<Seq<char>>::lemma_to_set_insert_commutes(o.take(i as int), o[i as int]);
                }
                i = i + 1;
            }
            proof {
                assert(ids_view(heads@).take(n as int) =~= ids_view(heads@));
            }
        }
        RepositoryRun { origin, branches, team, sentinels, next: 0, entries: Vec::new() }
    }

    /// The next walk to make: the branch to walk from its head, and the ids
    /// to hide. `None` once every branch has been walked.
    pub fn next_walk(&self) -> (r: Option<(BranchName, Vec<CommitHash>)>)
        requires
            self.wf(),
        ensures
            self.walked() < self.branch_names().len() ==> (r matches Some((b, hidden)) && b@
                == self.branch_names()[self.walked() as int] && ids_view(hidden@).to_set()
                == self.sentinel_set()),
            self.walked() == self.branch_names().len() ==> r is None,
    {
        if self.next >= self.branches.len() {
            return None;
        }
        let ids = self.sentinels.ids();
        let mut hidden: Vec<CommitHash> = Vec::new();
        let n = ids.len();
        let mut i: usize = 0;
        while i < n
            invariant
                n == ids.len(),
                i <= n,
                ids_view(hidden@) == ids_view(ids@).take(i as int),
            decreases n - i,
        {
            let ghost before = hidden@;
            hidden.push(ids[i].duplicate());
            proof {
                assert(ids_view(hidden@) =~= ids_view(before).push(ids_view(ids@)[i as int]));
                assert(ids_view(ids@).take(i + 1) =~= ids_view(ids@).take(i as int).push(
                    ids_view(ids@)[i as int],
                ));
            }
            i = i + 1;
        }
        proof {
            assert(ids_view(ids@).take(n as int) =~= ids_view(ids@));
        }
        assert(names_view(self.branches@)[self.next as int] == self.branches@[self.next as int]@);
        Some((self.branches[self.next].duplicate(), hidden))
    }

    /// Takes in what the walk of the next branch found, in walk order: the
    /// kept messages become entries of that branch, and the merge commits
    /// join the sentinels.
    pub fn record_walk(&mut self, commits: &Vec<CommitRecord>)
        requires
            old(self).wf(),
            old(self).walked() < old(self).branch_names().len(),
        ensures
            final(self).wf(),
            final(self).walked() == old(self).walked() + 1,
            final(self).origin_spec() == old(self).origin_spec(),
            final(self).branch_names() == old(self).branch_names(),
            final(self).team_spec() == old(self).team_spec(),
            final(self).sentinel_set() == old(self).sentinel_set().union(merge_ids(commits@)),
            old(self).sentinel_set().subset_of(final(self).sentinel_set()),
            final(self).entries_spec().len() == old(self).entries_spec().len() + kept_messages(
                commits@,
                old(self).team_spec(),
            ).len(),
            forall|j: int|
                0 <= j < old(self).entries_spec().len() ==> #[trigger] final(self).entries_spec()[j]
                    == old(self).entries_spec()[j],
            forall|j: int|
                old(self).entries_spec().len() <= j < final(self).entries_spec().len() ==> {
                    let e = #[trigger] final(self).entries_spec()[j];
                    &&& e.origin_spec() == old(self).origin_spec()
                    &&& e.branch_spec() == old(self).branch_names()[old(self).walked() as int]
                    &&& e.message_spec().denotes(
                        kept_messages(commits@, old(self).team_spec())[j - old(
                            self,
                        ).entries_spec().len()],
                    )
                },
    {
        let (messages, found) = extract_messages(commits, &self.team);
        let ghost base = self.entries@;
        let ghost kept = kept_messages(commits@, opt_view(self.team));
        let branch = self.branches[self.next].duplicate();
        assert(names_view(self.branches@)[self.next as int] == self.branches@[self.next as int]@);
        let mut messages = messages;
        let mut staged: Vec<ChangeLogEntry> = Vec::new();
        while messages.len() > 0
            invariant
                self.origin == old(self).origin,
                self.branches == old(self).branches,
                self.team == old(self).team,
                self.sentinels == old(self).sentinels,
                self.next == old(self).next,
                self.next < self.branches@.len(),
                found.wf(),
                staged@.len() + messages@.len() == kept.len(),
                forall|j: int|
                    0 <= j < staged@.len() ==> {
                        let e = #[trigger] staged@[j];
                        &&& e.origin_spec() == self.origin@
                        &&& e.branch_spec() == branch@
                        &&& e.message_spec().denotes(kept[kept.len() - 1 - j])
                    },
                forall|j: int| 0 <= j < messages@.len() ==> (#[trigger] messages@[j]).denotes(kept[j]),
            decreases messages.len(),
        {
            let m = messages.pop().unwrap();
            staged.push(ChangeLogEntry::new(self.origin.duplicate(), branch.duplicate(), m));
        }
        let k = staged.len();
        while staged.len() > 0
            invariant
                self.origin == old(self).origin,
                self.branches == old(self).branches,
                self.team == old(self).team,
                self.sentinels == old(self).sentinels,
                self.next == old(self).next,
                self.next < self.branches@.len(),
                found.wf(),
                self.entries@.len() + staged@.len() == base.len() + k,
                k == kept.len(),
                base.len() <= self.entries@.len(),
                forall|j: int| 0 <= j < base.len() ==> #[trigger] self.entries@[j] == base[j],
                forall|j: int|
                    0 <= j < staged@.len() ==> {
                        let e = #[trigger] staged@[j];
                        &&& e.origin_spec() == self.origin@
                        &&& e.branch_spec() == branch@
                        &&& e.message_spec().denotes(kept[kept.len() - 1 - j])
                    },
                forall|j: int|
                    base.len() <= j < self.entries@.len() ==> {
                        let e = #[trigger] self.entries@[j];
                        &&& e.origin_spec() == self.origin@
                        &&& e.branch_spec() == branch@
                        &&& e.message_spec().denotes(kept[j - base.len()])
                    },
            decreases staged.len(),
        {
            let e = staged.pop().unwrap();
            self.entries.push(e);
        }
        let next = self.next;
        let count = self.branches.len();
        assert(next < count);
        self.sentinels.extend(&found);
        self.next = next + 1;
    }

    /// The entries of every walk so far, in walk order.
    pub fn finish(self) -> (r: Vec<ChangeLogEntry>)
        ensures
            r@ == self.entries_spec(),
    {
        self.entries
    }
}

} // verus!
