use vstd::prelude::*;

use vstd::utf8::encode_utf8;

use crate::keyed::{
    keys_sorted, lemma_lex_order, lemma_pairs_map, lemma_sorted_unique, lex_lt, pairs_map,
    text_lt,
};

verus! {

/// Identifier of a commit, in its canonical text form.
#[derive(Debug, Clone, PartialEq, Eq, PartialOrd, Ord)]
pub struct CommitHash(String);

/// Name of a branch.
#[derive(Debug, Clone, PartialEq, Eq, PartialOrd, Ord)]
pub struct BranchName(String);

/// Where a repository is fetched from, such as a clone URL.
#[derive(Debug, Clone, PartialEq, Eq, PartialOrd, Ord)]
pub struct RepositoryOrigin(String);

/// Digest that identifies a snapshot, in lowercase hex.
#[derive(Debug, Clone, PartialEq, Eq, PartialOrd, Ord)]
pub struct SnapshotHash(String);

impl View for CommitHash {
    type V = Seq<char>;

    closed spec fn view(&self) -> Seq<char> {
        self.0@
    }
}

impl View for BranchName {
    type V = Seq<char>;

    closed spec fn view(&self) -> Seq<char> {
        self.0@
    }
}

impl View for RepositoryOrigin {
    type V = Seq<char>;

    closed spec fn view(&self) -> Seq<char> {
        self.0@
    }
}

impl View for SnapshotHash {
    type V = Seq<char>;

    closed spec fn view(&self) -> Seq<char> {
        self.0@
    }
}

impl CommitHash {
    pub fn new(s: String) -> (r: CommitHash)
        ensures
            r@ == s@,
    {
        CommitHash(s)
    }

    pub fn as_str(&self) -> (r: &str)
        ensures
            r@ == self@,
    {
        self.0.as_str()
    }

    pub fn as_bytes(&self) -> (r: &[u8])
        ensures
            r@ == vstd::utf8::encode_utf8(self@),
    {
        self.0.as_str().as_bytes()
    }

    pub fn duplicate(&self) -> (r: CommitHash)
        ensures
            r@ == self@,
    {
        CommitHash(self.0.clone())
    }
}

impl BranchName {
    pub fn new(s: String) -> (r: BranchName)
        ensures
            r@ == s@,
    {
        BranchName(s)
    }

    pub fn as_str(&self) -> (r: &str)
        ensures
            r@ == self@,
    {
        self.0.as_str()
    }

    pub fn as_bytes(&self) -> (r: &[u8])
        ensures
            r@ == vstd::utf8::encode_utf8(self@),
    {
        self.0.as_str().as_bytes()
    }

    pub fn duplicate(&self) -> (r: BranchName)
        ensures
            r@ == self@,
    {
        BranchName(self.0.clone())
    }

    pub fn same_as(&self, other: &BranchName) -> (r: bool)
        ensures
            r == (self@ == other@),
    {
        self.0 == other.0
    }
}

impl RepositoryOrigin {
    pub fn new(s: String) -> (r: RepositoryOrigin)
        ensures
            r@ == s@,
    {
        RepositoryOrigin(s)
    }

    pub fn as_str(&self) -> (r: &str)
        ensures
            r@ == self@,
    {
        self.0.as_str()
    }

    pub fn as_bytes(&self) -> (r: &[u8])
        ensures
            r@ == vstd::utf8::encode_utf8(self@),
    {
        self.0.as_str().as_bytes()
    }

    pub fn duplicate(&self) -> (r: RepositoryOrigin)
        ensures
            r@ == self@,
    {
        RepositoryOrigin(self.0.clone())
    }

    pub fn same_as(&self, other: &RepositoryOrigin) -> (r: bool)
        ensures
            r == (self@ == other@),
    {
        self.0 == other.0
    }
}

impl SnapshotHash {
    pub fn new(s: String) -> (r: SnapshotHash)
        ensures
            r@ == s@,
    {
        SnapshotHash(s)
    }

    pub fn as_str(&self) -> (r: &str)
        ensures
            r@ == self@,
    {
        self.0.as_str()
    }

    pub fn duplicate(&self) -> (r: SnapshotHash)
        ensures
            r@ == self@,
    {
        SnapshotHash(self.0.clone())
    }

    pub fn same_as(&self, other: &SnapshotHash) -> (r: bool)
        ensures
            r == (self@ == other@),
    {
        self.0 == other.0
    }
}

impl std::str::FromStr for BranchName {
    type Err = String;

    fn from_str(s: &str) -> Result<Self, Self::Err> {
        Ok(BranchName(s.to_owned()))
    }
}

impl std::str::FromStr for RepositoryOrigin {
    type Err = String;

    fn from_str(s: &str) -> Result<Self, Self::Err> {
        Ok(RepositoryOrigin(s.to_owned()))
    }
}

impl std::str::FromStr for SnapshotHash {
    type Err = ();

    fn from_str(s: &str) -> Result<Self, Self::Err> {
        Ok(SnapshotHash(s.to_owned()))
    }
}

/// Inserting `(k, v)` at `i`, between the keys below `k` and those above it,
/// keeps a sequence sorted and inserts into the map it describes.
pub proof fn lemma_insert_sorted<X>(s: Seq<(Seq<char>, X)>, i: int, k: Seq<char>, v: X)
    requires
        keys_sorted(s),
        0 <= i <= s.len(),
        forall|j: int| 0 <= j < i ==> lex_lt(#[trigger] s[j].0, k),
        i < s.len() ==> lex_lt(k, s[i].0),
    ensures
        keys_sorted(s.insert(i, (k, v))),
        pairs_map(s.insert(i, (k, v))) == pairs_map(s).insert(k, v),
{
    let t = s.insert(i, (k, v));
    assert forall|x: int, y: int| 0 <= x < y < t.len() implies lex_lt(
        #[trigger] t[x].0,
        #[trigger] t[y].0,
    ) by {
        if y < i {
            assert(t[x] == s[x] && t[y] == s[y]);
        } else if y == i {
            assert(t[x] == s[x]);
        } else if x == i {
            assert(t[y] == s[y - 1]);
            if y - 1 > i {
                assert(lex_lt(s[i].0, s[y - 1].0));
                lemma_lex_order(k, s[i].0, s[y - 1].0);
            }
        } else if x < i {
            assert(t[x] == s[x] && t[y] == s[y - 1]);
            if x < y - 1 {
                assert(lex_lt(s[x].0, s[y - 1].0));
            } else {
                assert(false);
            }
        } else {
            assert(t[x] == s[x - 1] && t[y] == s[y - 1]);
            assert(lex_lt(s[x - 1].0, s[y - 1].0));
        }
    }
    lemma_pairs_map(s);
    lemma_pairs_map(t);
    assert(t[i] == (k, v));
    assert(pairs_map(t).contains_key(t[i].0));
    assert forall|q: Seq<char>| #[trigger] pairs_map(t).contains_key(q) <==> pairs_map(s).insert(
        k,
        v,
    ).contains_key(q) by {
        if pairs_map(t).contains_key(q) && q != k {
            let j = choose|j: int| 0 <= j < t.len() && t[j].0 == q;
            if j < i {
                assert(t[j] == s[j]);
                assert(pairs_map(s).contains_key(s[j].0));
            } else {
                assert(t[j] == s[j - 1]);
                assert(pairs_map(s).contains_key(s[j - 1].0));
            }
        }
        if pairs_map(s).contains_key(q) {
            let j = choose|j: int| 0 <= j < s.len() && s[j].0 == q;
            if j < i {
                assert(t[j] == s[j]);
                assert(pairs_map(t).contains_key(t[j].0));
            } else {
                assert(t[j + 1] == s[j]);
                assert(pairs_map(t).contains_key(t[j + 1].0));
            }
        }
    }
    assert forall|q: Seq<char>| #[trigger] pairs_map(t).contains_key(q) implies pairs_map(t)[q]
        == pairs_map(s).insert(k, v)[q] by {
        if q != k {
            let j = choose|j: int| 0 <= j < t.len() && t[j].0 == q;
            if j < i {
                assert(t[j] == s[j]);
                assert(pairs_map(s).contains_key(s[j].0));
            } else {
                assert(t[j] == s[j - 1]);
                assert(pairs_map(s).contains_key(s[j - 1].0));
            }
        }
    }
    assert(pairs_map(t) =~= pairs_map(s).insert(k, v));
}

/// Replacing the value at `i` keeps a sequence sorted and updates the map it
/// describes.
pub proof fn lemma_update_sorted<X>(s: Seq<(Seq<char>, X)>, i: int, v: X)
    requires
        keys_sorted(s),
        0 <= i < s.len(),
    ensures
        keys_sorted(s.update(i, (s[i].0, v))),
        pairs_map(s.update(i, (s[i].0, v))) == pairs_map(s).insert(s[i].0, v),
{
    let k = s[i].0;
    let t = s.update(i, (k, v));
    assert forall|x: int, y: int| 0 <= x < y < t.len() implies lex_lt(
        #[trigger] t[x].0,
        #[trigger] t[y].0,
    ) by {
        assert(t[x].0 == s[x].0 && t[y].0 == s[y].0);
    }
    lemma_pairs_map(s);
    lemma_pairs_map(t);
    assert(pairs_map(t).contains_key(t[i].0));
    assert forall|q: Seq<char>| #[trigger] pairs_map(t).contains_key(q) <==> pairs_map(s).insert(
        k,
        v,
    ).contains_key(q) by {
        if pairs_map(t).contains_key(q) {
            let j = choose|j: int| 0 <= j < t.len() && t[j].0 == q;
            assert(pairs_map(s).contains_key(s[j].0));
        }
        if pairs_map(s).contains_key(q) {
            let j = choose|j: int| 0 <= j < s.len() && s[j].0 == q;
            assert(pairs_map(t).contains_key(t[j].0));
        }
    }
    assert forall|q: Seq<char>| #[trigger] pairs_map(t).contains_key(q) implies pairs_map(t)[q]
        == pairs_map(s).insert(k, v)[q] by {
        if q != k {
            let j = choose|j: int| 0 <= j < t.len() && t[j].0 == q;
            assert(pairs_map(s).contains_key(s[j].0));
            assert(j != i);
        }
    }
    assert(pairs_map(t) =~= pairs_map(s).insert(k, v));
}

/// Head commit of each tracked branch of one repository, kept sorted by
/// branch name.
#[derive(Debug, Clone, PartialEq, Eq)]
pub struct RepositorySnapshot {
    entries: Vec<(BranchName, CommitHash)>,
}

pub open spec fn head_pairs(v: Seq<(BranchName, CommitHash)>) -> Seq<(Seq<char>, Seq<char>)> {
    v.map_values(|e: (BranchName, CommitHash)| (e.0@, e.1@))
}

impl RepositorySnapshot {
    /// The (branch, head) pairs in ascending branch order.
    pub closed spec fn pairs(&self) -> Seq<(Seq<char>, Seq<char>)> {
        head_pairs(self.entries@)
    }

    /// Branches are unique and in ascending order.
    pub closed spec fn wf(&self) -> bool {
        keys_sorted(self.pairs())
    }
}

impl View for RepositorySnapshot {
    type V = Map<Seq<char>, Seq<char>>;

    closed spec fn view(&self) -> Map<Seq<char>, Seq<char>> {
        pairs_map(self.pairs())
    }
}

impl RepositorySnapshot {
    pub fn new() -> (r: RepositorySnapshot)
        ensures
            r.wf(),
            r@ == Map::<Seq<char>, Seq<char>>::empty(),
    {
        let r = RepositorySnapshot { entries: Vec::new() };
        assert(r.pairs() =~= seq![]);
        r
    }

    /// Records `head` as the head of `branch`, replacing an earlier one.
    pub fn insert(&mut self, branch: BranchName, head: CommitHash)
        requires
            old(self).wf(),
        ensures
            final(self).wf(),
            final(self)@ == old(self)@.insert(branch@, head@),
    {
        let n = self.entries.len();
        let mut i: usize = 0;
        while i < n && text_lt(self.entries[i].0.as_str(), branch.as_str())
            invariant
                n == self.entries.len(),
                i <= n,
                forall|j: int| 0 <= j < i ==> lex_lt(#[trigger] self.pairs()[j].0, branch@),
            decreases n - i,
        {
            i = i + 1;
        }
        let ghost s = self.pairs();
        if i < n && self.entries[i].0.same_as(&branch) {
            proof {
                lemma_update_sorted(s, i as int, head@);
                assert(head_pairs(self.entries@.update(i as int, (branch, head))) =~= s.update(
                    i as int,
                    (s[i as int].0, head@),
                ));
            }
            self.entries.set(i, (branch, head));
        } else {
            proof {
                if i < n {
                    lemma_lex_order(branch@, s[i as int].0, branch@);
                }
                lemma_insert_sorted(s, i as int, branch@, head@);
                assert(head_pairs(self.entries@.insert(i as int, (branch, head))) =~= s.insert(
                    i as int,
                    (branch@, head@),
                ));
            }
            self.entries.insert(i, (branch, head));
        }
    }

    /// The head recorded for `branch`.
    pub fn get(&self, branch: &BranchName) -> (r: Option<&CommitHash>)
        requires
            self.wf(),
        ensures
            r matches Some(h) ==> self@.contains_key(branch@) && self@[branch@] == h@,
            r is None ==> !self@.contains_key(branch@),
    {
        let n = self.entries.len();
        let mut i: usize = 0;
        while i < n
            invariant
                n == self.entries.len(),
                i <= n,
                self.wf(),
                forall|j: int| 0 <= j < i ==> #[trigger] self.pairs()[j].0 != branch@,
            decreases n - i,
        {
            if self.entries[i].0.same_as(branch) {
                proof {
                    lemma_pairs_map(self.pairs());
                    assert(self.pairs()[i as int] == (self.entries@[i as int].0@, self.entries@[
                        i as int
                    ].1@));
                    assert(pairs_map(self.pairs()).contains_key(self.pairs()[i as int].0));
                }
                return Some(&self.entries[i].1);
            }
            i = i + 1;
        }
        proof {
            lemma_pairs_map(self.pairs());
        }
        None
    }

    /// The (branch, head) entries in ascending branch order.
    pub fn entries(&self) -> (r: &Vec<(BranchName, CommitHash)>)
        requires
            self.wf(),
        ensures
            head_pairs(r@) == self.pairs(),
            keys_sorted(head_pairs(r@)),
            pairs_map(head_pairs(r@)) == self@,
    {
        &self.entries
    }

    /// The recorded heads, in ascending branch order.
    pub fn heads(&self) -> (r: Vec<CommitHash>)
        requires
            self.wf(),
        ensures
            r@.len() == self.pairs().len(),
            forall|i: int| 0 <= i < r@.len() ==> #[trigger] r@[i]@ == self.pairs()[i].1,
            r@.map_values(|c: CommitHash| c@).to_set() == self@.values(),
    {
        let mut out: Vec<CommitHash> = Vec::new();
        let n = self.entries.len();
        let mut i: usize = 0;
        while i < n
            invariant
                n == self.entries.len(),
                i <= n,
                out@.len() == i,
                forall|j: int| 0 <= j < i ==> #[trigger] out@[j]@ == self.pairs()[j].1,
            decreases n - i,
        {
            out.push(self.entries[i].1.duplicate());
            i = i + 1;
        }
        proof {
            let o = out@.map_values(|c: CommitHash| c@);
            lemma_pairs_map(self.pairs());
            assert forall|v: Seq<char>| #[trigger] o.to_set().contains(v) <==> self@.values().contains(v) by {
                if o.to_set().contains(v) {
                    let i = choose|i: int| 0 <= i < o.len() && o[i] == v;
                    assert(out@[i]@ == self.pairs()[i].1);
                    assert(self@.contains_key(self.pairs()[i].0));
                    assert(self@[self.pairs()[i].0] == v);
                }
                if self@.values().contains(v) {
                    let k = choose|k: Seq<char>| #[trigger] self@.contains_key(k) && self@[k] == v;
                    let i = choose|i: int| 0 <= i < self.pairs().len() && self.pairs()[i].0 == k;
                    assert(out@[i]@ == self.pairs()[i].1);
                    assert(o[i] == v);
                }
            }
            assert(o.to_set() =~= self@.values());
        }
        out
    }

    /// A repository snapshot holding the given (branch, head) pairs, a later
    /// pair of the same branch winning over an earlier one.
    pub fn from_pairs(v: &Vec<(BranchName, CommitHash)>) -> (r: RepositorySnapshot)
        ensures
            r.wf(),
            r@ == pairs_map(head_pairs(v@)),
    {
        let mut r = RepositorySnapshot::new();
        proof {
            assert(head_pairs(v@).take(0) =~= seq![]);
        }
        let n = v.len();
        let mut i: usize = 0;
        while i < n
            invariant
                n == v.len(),
                i <= n,
                r.wf(),
                r@ == pairs_map(head_pairs(v@).take(i as int)),
            decreases n - i,
        {
            r.insert(v[i].0.duplicate(), v[i].1.duplicate());
            proof {
                let t = head_pairs(v@).take(i + 1);
                assert(t.drop_last() =~= head_pairs(v@).take(i as int));
            }
            i = i + 1;
        }
        proof {
            assert(head_pairs(v@).take(n as int) =~= head_pairs(v@));
        }
        r
    }

    pub fn duplicate(&self) -> (r: RepositorySnapshot)
        requires
            self.wf(),
        ensures
            r.wf(),
            r@ == self@,
            r.pairs() == self.pairs(),
    {
        let mut out: Vec<(BranchName, CommitHash)> = Vec::new();
        let n = self.entries.len();
        let mut i: usize = 0;
        while i < n
            invariant
                n == self.entries.len(),
                i <= n,
                head_pairs(out@) == self.pairs().take(i as int),
            decreases n - i,
        {
            let ghost before = out@;
            out.push((self.entries[i].0.duplicate(), self.entries[i].1.duplicate()));
            proof {
                assert(head_pairs(out@) =~= head_pairs(before).push(self.pairs()[i as int]));
                assert(self.pairs().take(i + 1) =~= self.pairs().take(i as int).push(
                    self.pairs()[i as int],
                ));
            }
            i = i + 1;
        }
        proof {
            assert(self.pairs().take(n as int) =~= self.pairs());
        }
        RepositorySnapshot { entries: out }
    }
}

/// Appends the bytes `b` to `out`.
fn append_bytes(out: &mut Vec<u8>, b: &[u8])
    ensures
        final(out)@ == old(out)@ + b@,
{
    let n = b.len();
    let mut k: usize = 0;
    while k < n
        invariant
            n == b@.len(),
            k <= n,
            out@ == old(out)@ + b@.take(k as int),
        decreases n - k,
    {
        out.push(b[k]);
        proof {
            assert(b@.take(k + 1) =~= b@.take(k as int).push(b@[k as int]));
        }
        k = k + 1;
    }
    proof {
        assert(b@.take(n as int) =~= b@);
    }
}

/// The BLAKE3 digest of `input`, in lowercase hex.
pub uninterp spec fn blake3_hex(input: Seq<u8>) -> Seq<char>;

/// Relies on `blake3::hash`, and on `Display` of its `Hash`, which writes the
/// 32-byte digest as lowercase hex: the text depends on the input alone.
#[verifier::external_body]
fn digest_hex(input: &[u8]) -> (r: String)
    ensures
        r@ == blake3_hex(input@),
{
    blake3::hash(input).to_string()
}

/// Cache key of a repository: the digest of its origin's bytes.
pub fn origin_digest(origin: &RepositoryOrigin) -> (r: String)
    ensures
        r@ == blake3_hex(encode_utf8(origin@)),
{
    digest_hex(origin.as_bytes())
}

/// Bytes that a repository's branches contribute to a snapshot digest: each
/// branch name, then its head, in order.
pub open spec fn branches_input(s: Seq<(Seq<char>, Seq<char>)>) -> Seq<u8>
    decreases s.len(),
{
    if s.len() == 0 {
        seq![]
    } else {
        branches_input(s.drop_last()) + encode_utf8(s.last().0) + encode_utf8(s.last().1)
    }
}

/// Bytes of a snapshot digest: each origin, then its branches, in order.
pub open spec fn snapshot_input(d: Seq<(Seq<char>, Seq<(Seq<char>, Seq<char>)>)>) -> Seq<u8>
    decreases d.len(),
{
    if d.len() == 0 {
        seq![]
    } else {
        snapshot_input(d.drop_last()) + encode_utf8(d.last().0) + branches_input(d.last().1)
    }
}

pub type RepositoriesView = Map<Seq<char>, Map<Seq<char>, Seq<char>>>;

/// A snapshot seen as its hash and the heads it records per repository.
pub type SnapshotView = (Seq<char>, RepositoriesView);

pub open spec fn repo_pairs(v: Seq<(RepositoryOrigin, RepositorySnapshot)>) -> Seq<
    (Seq<char>, Map<Seq<char>, Seq<char>>),
> {
    v.map_values(|e: (RepositoryOrigin, RepositorySnapshot)| (e.0@, e.1@))
}

pub open spec fn repo_deep(v: Seq<(RepositoryOrigin, RepositorySnapshot)>) -> Seq<
    (Seq<char>, Seq<(Seq<char>, Seq<char>)>),
> {
    v.map_values(|e: (RepositoryOrigin, RepositorySnapshot)| (e.0@, e.1.pairs()))
}

/// Origins are unique and ascending, and each repository snapshot is well
/// formed.
pub open spec fn repos_wf(v: Seq<(RepositoryOrigin, RepositorySnapshot)>) -> bool {
    &&& keys_sorted(repo_pairs(v))
    &&& forall|i: int| 0 <= i < v.len() ==> (#[trigger] v[i]).1.wf()
}

fn repos_insert(
    v: &mut Vec<(RepositoryOrigin, RepositorySnapshot)>,
    origin: RepositoryOrigin,
    snapshot: RepositorySnapshot,
)
    requires
        repos_wf(old(v)@),
        snapshot.wf(),
    ensures
        repos_wf(final(v)@),
        pairs_map(repo_pairs(final(v)@)) == pairs_map(repo_pairs(old(v)@)).insert(
            origin@,
            snapshot@,
        ),
{
    let n = v.len();
    let mut i: usize = 0;
    while i < n && text_lt(v[i].0.as_str(), origin.as_str())
        invariant
            n == v.len(),
            i <= n,
            forall|j: int| 0 <= j < i ==> lex_lt(#[trigger] repo_pairs(v@)[j].0, origin@),
        decreases n - i,
    {
        i = i + 1;
    }
    let ghost s = repo_pairs(v@);
    if i < n && v[i].0.same_as(&origin) {
        proof {
            lemma_update_sorted(s, i as int, snapshot@);
            assert(repo_pairs(v@.update(i as int, (origin, snapshot))) =~= s.update(
                i as int,
                (s[i as int].0, snapshot@),
            ));
        }
        v.set(i, (origin, snapshot));
    } else {
        proof {
            if i < n {
                lemma_lex_order(origin@, s[i as int].0, origin@);
            }
            lemma_insert_sorted(s, i as int, origin@, snapshot@);
            assert(repo_pairs(v@.insert(i as int, (origin, snapshot))) =~= s.insert(
                i as int,
                (origin@, snapshot@),
            ));
        }
        v.insert(i, (origin, snapshot));
    }
}

fn repos_get<'a>(v: &'a Vec<(RepositoryOrigin, RepositorySnapshot)>, origin: &RepositoryOrigin) -> (r:
    Option<&'a RepositorySnapshot>)
    requires
        repos_wf(v@),
    ensures
        r matches Some(s) ==> pairs_map(repo_pairs(v@)).contains_key(origin@) && pairs_map(
            repo_pairs(v@),
        )[origin@] == s@ && s.wf(),
        r is None ==> !pairs_map(repo_pairs(v@)).contains_key(origin@),
{
    let n = v.len();
    let mut i: usize = 0;
    while i < n
        invariant
            n == v.len(),
            i <= n,
            repos_wf(v@),
            forall|j: int| 0 <= j < i ==> #[trigger] repo_pairs(v@)[j].0 != origin@,
        decreases n - i,
    {
        if v[i].0.same_as(origin) {
            proof {
                lemma_pairs_map(repo_pairs(v@));
                assert(repo_pairs(v@)[i as int] == (v@[i as int].0@, v@[i as int].1@));
                assert(pairs_map(repo_pairs(v@)).contains_key(repo_pairs(v@)[i as int].0));
            }
            return Some(&v[i].1);
        }
        i = i + 1;
    }
    proof {
        lemma_pairs_map(repo_pairs(v@));
    }
    None
}

fn repos_duplicate(v: &Vec<(RepositoryOrigin, RepositorySnapshot)>) -> (r: Vec<
    (RepositoryOrigin, RepositorySnapshot),
>)
    requires
        repos_wf(v@),
    ensures
        repos_wf(r@),
        repo_pairs(r@) == repo_pairs(v@),
        repo_deep(r@) == repo_deep(v@),
{
    let mut out: Vec<(RepositoryOrigin, RepositorySnapshot)> = Vec::new();
    let n = v.len();
    let mut i: usize = 0;
    while i < n
        invariant
            n == v.len(),
            i <= n,
            repos_wf(v@),
            repo_pairs(out@) == repo_pairs(v@).take(i as int),
            repo_deep(out@) == repo_deep(v@).take(i as int),
            forall|j: int| 0 <= j < out@.len() ==> (#[trigger] out@[j]).1.wf(),
        decreases n - i,
    {
        let ghost before = out@;
        let e = (v[i].0.duplicate(), v[i].1.duplicate());
        out.push(e);
        proof {
            assert(repo_pairs(out@) =~= repo_pairs(before).push(repo_pairs(v@)[i as int]));
            assert(repo_pairs(v@).take(i + 1) =~= repo_pairs(v@).take(i as int).push(
                repo_pairs(v@)[i as int],
            ));
            assert(repo_deep(out@) =~= repo_deep(before).push(repo_deep(v@)[i as int]));
            assert(repo_deep(v@).take(i + 1) =~= repo_deep(v@).take(i as int).push(
                repo_deep(v@)[i as int],
            ));
        }
        i = i + 1;
    }
    proof {
        assert(repo_pairs(v@).take(n as int) =~= repo_pairs(v@));
        assert(repo_deep(v@).take(n as int) =~= repo_deep(v@));
    }
    out
}

/// Branch heads per repository, as a run leaves them, identified by a digest.
#[derive(Debug, Clone, PartialEq, Eq)]
pub struct Snapshot {
    hash: SnapshotHash,
    repositories: Vec<(RepositoryOrigin, RepositorySnapshot)>,
}

impl View for Snapshot {
    type V = SnapshotView;

    closed spec fn view(&self) -> SnapshotView {
        (self.hash@, pairs_map(repo_pairs(self.repositories@)))
    }
}

impl Snapshot {
    pub closed spec fn wf(&self) -> bool {
        repos_wf(self.repositories@)
    }

    pub fn hash(&self) -> (r: &SnapshotHash)
        ensures
            r@ == self@.0,
    {
        &self.hash
    }

    /// The branch heads recorded for `origin`.
    pub fn get(&self, origin: &RepositoryOrigin) -> (r: Option<&RepositorySnapshot>)
        requires
            self.wf(),
        ensures
            r matches Some(s) ==> self@.1.contains_key(origin@) && s@ == self@.1[origin@] && s.wf(),
            r is None ==> !self@.1.contains_key(origin@),
    {
        repos_get(&self.repositories, origin)
    }

    /// The repositories in ascending origin order.
    pub fn repositories(&self) -> (r: &Vec<(RepositoryOrigin, RepositorySnapshot)>)
        requires
            self.wf(),
        ensures
            repos_wf(r@),
            pairs_map(repo_pairs(r@)) == self@.1,
    {
        &self.repositories
    }

    pub fn duplicate(&self) -> (r: Snapshot)
        requires
            self.wf(),
        ensures
            r.wf(),
            r@ == self@,
    {
        Snapshot { hash: self.hash.duplicate(), repositories: repos_duplicate(&self.repositories) }
    }

    /// A snapshot as a stored record gives it: its hash, kept as it is, and
    /// per repository its (branch, head) pairs, a later pair of the same key
    /// winning over an earlier one.
    pub fn from_records(
        hash: SnapshotHash,
        records: &Vec<(RepositoryOrigin, Vec<(BranchName, CommitHash)>)>,
    ) -> (r: Snapshot)
        ensures
            r.wf(),
            r@.0 == hash@,
            r@.1 == pairs_map(records_view(records@)),
    {
        let mut repositories: Vec<(RepositoryOrigin, RepositorySnapshot)> = Vec::new();
        proof {
            assert(repo_pairs(repositories@) =~= seq![]);
            assert(records_view(records@).take(0) =~= seq![]);
        }
        let n = records.len();
        let mut i: usize = 0;
        while i < n
            invariant
                n == records.len(),
                i <= n,
                repos_wf(repositories@),
                pairs_map(repo_pairs(repositories@)) == pairs_map(
                    records_view(records@).take(i as int),
                ),
            decreases n - i,
        {
            let snapshot = RepositorySnapshot::from_pairs(&records[i].1);
            repos_insert(&mut repositories, records[i].0.duplicate(), snapshot);
            proof {
                let t = records_view(records@).take(i + 1);
                assert(t.drop_last() =~= records_view(records@).take(i as int));
            }
            i = i + 1;
        }
        proof {
            assert(records_view(records@).take(n as int) =~= records_view(records@));
        }
        Snapshot { hash, repositories }
    }
}

pub open spec fn records_view(v: Seq<(RepositoryOrigin, Vec<(BranchName, CommitHash)>)>) -> Seq<
    (Seq<char>, Map<Seq<char>, Seq<char>>),
> {
    v.map_values(
        |e: (RepositoryOrigin, Vec<(BranchName, CommitHash)>)| (e.0@, pairs_map(head_pairs(e.1@))),
    )
}

/// Collects the repository snapshots of one run, then builds the snapshot
/// with its digest.
pub struct SnapshotBuilder {
    repositories: Vec<(RepositoryOrigin, RepositorySnapshot)>,
}

impl View for SnapshotBuilder {
    type V = RepositoriesView;

    closed spec fn view(&self) -> RepositoriesView {
        pairs_map(repo_pairs(self.repositories@))
    }
}

impl SnapshotBuilder {
    pub closed spec fn wf(&self) -> bool {
        repos_wf(self.repositories@)
    }

    /// Origins with their (branch, head) pairs, all in ascending order.
    pub closed spec fn deep(&self) -> Seq<(Seq<char>, Seq<(Seq<char>, Seq<char>)>)> {
        repo_deep(self.repositories@)
    }

    /// The bytes that the snapshot digest is computed over.
    pub open spec fn digest_input(&self) -> Seq<u8> {
        snapshot_input(self.deep())
    }

    pub fn new() -> (r: SnapshotBuilder)
        ensures
            r.wf(),
            r@ == RepositoriesView::empty(),
    {
        let r = SnapshotBuilder { repositories: Vec::new() };
        assert(repo_pairs(r.repositories@) =~= seq![]);
        r
    }

    /// Records the branch heads of `origin`, replacing earlier ones.
    pub fn add_repository_snapshot(&mut self, origin: RepositoryOrigin, snapshot: RepositorySnapshot)
        requires
            old(self).wf(),
            snapshot.wf(),
        ensures
            final(self).wf(),
            final(self)@ == old(self)@.insert(origin@, snapshot@),
    {
        repos_insert(&mut self.repositories, origin, snapshot);
    }

    /// The snapshot of the recorded heads. Its hash is the digest of every
    /// origin in ascending order, each followed by its branch names and heads
    /// in ascending branch order.
    pub fn build(self) -> (r: Snapshot)
        requires
            self.wf(),
        ensures
            r.wf(),
            r@ == (blake3_hex(self.digest_input()), self@),
    {
        let ghost d = self.deep();
        let mut bytes: Vec<u8> = Vec::new();
        let n = self.repositories.len();
        proof {
            assert(d.take(0) =~= seq![]);
        }
        let mut i: usize = 0;
        while i < n
            invariant
                n == self.repositories.len(),
                repos_wf(self.repositories@),
                d == repo_deep(self.repositories@),
                i <= n,
                bytes@ == snapshot_input(d.take(i as int)),
            decreases n - i,
        {
            let origin = &self.repositories[i].0;
            assert(self.repositories@[i as int].1.wf());
            let branches = self.repositories[i].1.entries();
            append_bytes(&mut bytes, origin.as_bytes());
            let ghost start = bytes@;
            let ghost heads = d[i as int].1;
            assert(heads == head_pairs(branches@));
            proof {
                assert(heads.take(0) =~= seq![]);
                assert(start =~= start + branches_input(heads.take(0)));
            }
            let m = branches.len();
            let mut j: usize = 0;
            while j < m
                invariant
                    m == branches.len(),
                    heads == head_pairs(branches@),
                    j <= m,
                    bytes@ == start + branches_input(heads.take(j as int)),
                decreases m - j,
            {
                append_bytes(&mut bytes, branches[j].0.as_bytes());
                append_bytes(&mut bytes, branches[j].1.as_bytes());
                proof {
                    let t = heads.take(j + 1);
                    assert(t.drop_last() =~= heads.take(j as int));
                    assert(bytes@ =~= start + branches_input(t));
                }
                j = j + 1;
            }
            proof {
                assert(heads.take(m as int) =~= heads);
                let t = d.take(i + 1);
                assert(t.drop_last() =~= d.take(i as int));
                assert(bytes@ =~= snapshot_input(t));
            }
            i = i + 1;
        }
        proof {
            assert(d.take(n as int) =~= d);
        }
        let hash = SnapshotHash::new(digest_hex(bytes.as_slice()));
        Snapshot { hash, repositories: self.repositories }
    }
}

/// The order in which repositories and branches were added does not matter:
/// two builders that record the same heads for the same repositories hold the
/// same sequence, so the snapshots they build have the same digest.
pub proof fn lemma_build_order_independent(a: SnapshotBuilder, b: SnapshotBuilder)
    requires
        a.wf(),
        b.wf(),
        a@ == b@,
    ensures
        a.deep() == b.deep(),
        a.digest_input() == b.digest_input(),
        blake3_hex(a.digest_input()) == blake3_hex(b.digest_input()),
{
    let (x, y) = (a.repositories@, b.repositories@);
    lemma_sorted_unique(repo_pairs(x), repo_pairs(y));
    assert(x.len() == repo_pairs(x).len());
    assert forall|i: int| 0 <= i < x.len() implies #[trigger] repo_deep(x)[i] == repo_deep(y)[i] by {
        assert(repo_pairs(x)[i] == repo_pairs(y)[i]);
        assert(x[i].1.wf() && y[i].1.wf());
        lemma_sorted_unique(x[i].1.pairs(), y[i].1.pairs());
    }
    assert(repo_deep(x) =~= repo_deep(y));
}

/// `h` after `push(s)`: `s` is appended unless the latest entry already has
/// its hash.
pub open spec fn pushed(h: Seq<SnapshotView>, s: SnapshotView) -> Seq<SnapshotView> {
    if h.len() > 0 && h.last().0 == s.0 {
        h
    } else {
        h.push(s)
    }
}

/// `h` after pushing each of `xs` in order.
pub open spec fn pushed_all(h: Seq<SnapshotView>, xs: Seq<SnapshotView>) -> Seq<SnapshotView>
    decreases xs.len(),
{
    if xs.len() == 0 {
        h
    } else {
        pushed(pushed_all(h, xs.drop_last()), xs.last())
    }
}

/// No two consecutive entries share a hash.
pub open spec fn history_ok(h: Seq<SnapshotView>) -> bool {
    forall|i: int| 0 < i < h.len() ==> (#[trigger] h[i]).0 != h[i - 1].0
}

/// Index of the most recent entry with hash `x`, or -1.
pub open spec fn latest_with_hash(h: Seq<SnapshotView>, x: Seq<char>) -> int
    decreases h.len(),
{
    if h.len() == 0 {
        -1
    } else if h.last().0 == x {
        h.len() - 1
    } else {
        latest_with_hash(h.drop_last(), x)
    }
}

pub open spec fn snapshot_views(v: Seq<Snapshot>) -> Seq<SnapshotView> {
    v.map_values(|s: Snapshot| s@)
}

/// The snapshots of successive runs, oldest first.
#[derive(Debug, Clone, PartialEq, Eq)]
pub struct SnapshotHistory {
    snapshots: Vec<Snapshot>,
}

impl View for SnapshotHistory {
    type V = Seq<SnapshotView>;

    closed spec fn view(&self) -> Seq<SnapshotView> {
        snapshot_views(self.snapshots@)
    }
}

impl SnapshotHistory {
    pub closed spec fn wf(&self) -> bool {
        &&& history_ok(self@)
        &&& forall|i: int| 0 <= i < self.snapshots@.len() ==> (#[trigger] self.snapshots@[i]).wf()
    }

    pub fn new() -> (r: SnapshotHistory)
        ensures
            r.wf(),
            r@ == Seq::<SnapshotView>::empty(),
    {
        let r = SnapshotHistory { snapshots: Vec::new() };
        assert(r@ =~= seq![]);
        r
    }

    pub fn len(&self) -> (r: usize)
        ensures
            r == self@.len(),
    {
        self.snapshots.len()
    }

    /// The most recent snapshot.
    pub fn last(&self) -> (r: Option<&Snapshot>)
        requires
            self.wf(),
        ensures
            self@.len() == 0 ==> r is None,
            self@.len() > 0 ==> (r matches Some(s) && s@ == self@.last() && s.wf()),
    {
        let n = self.snapshots.len();
        if n == 0 {
            None
        } else {
            assert(self.snapshots@[n - 1].wf());
            Some(&self.snapshots[n - 1])
        }
    }

    /// The most recent snapshot with hash `hash`.
    pub fn get_by_hash(&self, hash: &SnapshotHash) -> (r: Option<&Snapshot>)
        requires
            self.wf(),
        ensures
            latest_with_hash(self@, hash@) < 0 ==> r is None,
            latest_with_hash(self@, hash@) >= 0 ==> (r matches Some(s) && s@ == self@[latest_with_hash(
                self@,
                hash@,
            )] && s.wf()),
    {
        let n = self.snapshots.len();
        let mut j: usize = n;
        proof {
            assert(self@.take(n as int) =~= self@);
        }
        while j > 0
            invariant
                n == self.snapshots.len(),
                self.wf(),
                j <= n,
                latest_with_hash(self@, hash@) == latest_with_hash(self@.take(j as int), hash@),
            decreases j,
        {
            let ghost t = self@.take(j as int);
            if self.snapshots[j - 1].hash.same_as(hash) {
                assert(self.snapshots@[j - 1].wf());
                return Some(&self.snapshots[j - 1]);
            }
            proof {
                assert(t.drop_last() =~= self@.take(j - 1));
            }
            j = j - 1;
        }
        None
    }

    /// The snapshot `index` runs back: 0 is the most recent.
    pub fn get_by_index(&self, index: usize) -> (r: Option<&Snapshot>)
        requires
            self.wf(),
        ensures
            index >= self@.len() ==> r is None,
            index < self@.len() ==> (r matches Some(s) && s@ == self@[self@.len() - 1 - index]
                && s.wf()),
    {
        let n = self.snapshots.len();
        if index >= n {
            None
        } else {
            assert(self.snapshots@[n - 1 - index].wf());
            Some(&self.snapshots[n - 1 - index])
        }
    }

    /// Appends `snapshot` unless the most recent one has the same hash.
    pub fn push(&mut self, snapshot: Snapshot)
        requires
            old(self).wf(),
            snapshot.wf(),
        ensures
            final(self).wf(),
            final(self)@ == pushed(old(self)@, snapshot@),
    {
        let n = self.snapshots.len();
        if n > 0 && self.snapshots[n - 1].hash.same_as(&snapshot.hash) {
            return ;
        }
        let ghost before = self.snapshots@;
        self.snapshots.push(snapshot);
        proof {
            assert(snapshot_views(self.snapshots@) =~= snapshot_views(before).push(snapshot@));
            assert forall|i: int| 0 <= i < self.snapshots@.len() implies (
            #[trigger] self.snapshots@[i]).wf() by {
                if i < n {
                    assert(self.snapshots@[i] == before[i]);
                }
            }
        }
    }

    /// The snapshots, oldest first.
    pub fn snapshots(&self) -> (r: &Vec<Snapshot>)
        requires
            self.wf(),
        ensures
            snapshot_views(r@) == self@,
            forall|i: int| 0 <= i < r@.len() ==> (#[trigger] r@[i]).wf(),
    {
        &self.snapshots
    }

    /// The history that pushing each of `snapshots` in order onto an empty
    /// one gives.
    pub fn from_snapshots(snapshots: Vec<Snapshot>) -> (r: SnapshotHistory)
        requires
            forall|i: int| 0 <= i < snapshots@.len() ==> (#[trigger] snapshots@[i]).wf(),
        ensures
            r.wf(),
            r@ == pushed_all(Seq::empty(), snapshot_views(snapshots@)),
    {
        let mut r = SnapshotHistory::new();
        let ghost xs = snapshot_views(snapshots@);
        proof {
            assert(xs.take(0) =~= seq![]);
        }
        let n = snapshots.len();
        let mut i: usize = 0;
        while i < n
            invariant
                n == snapshots.len(),
                xs == snapshot_views(snapshots@),
                forall|k: int| 0 <= k < snapshots@.len() ==> (#[trigger] snapshots@[k]).wf(),
                i <= n,
                r.wf(),
                r@ == pushed_all(Seq::empty(), xs.take(i as int)),
            decreases n - i,
        {
            assert(snapshots@[i as int].wf());
            r.push(snapshots[i].duplicate());
            proof {
                let t = xs.take(i + 1);
                assert(t.drop_last() =~= xs.take(i as int));
            }
            i = i + 1;
        }
        proof {
            assert(xs.take(n as int) =~= xs);
        }
        r
    }
}

/// Pushing a snapshot whose hash is that of the latest entry leaves the
/// history as it is, so pushing the same snapshot twice is pushing it once;
/// any other snapshot is appended as exactly one entry.
pub proof fn lemma_push_no_repeat(h: Seq<SnapshotView>, s: SnapshotView)
    ensures
        h.len() > 0 && h.last().0 == s.0 ==> pushed(h, s) == h,
        !(h.len() > 0 && h.last().0 == s.0) ==> pushed(h, s) == h.push(s) && pushed(h, s).len()
            == h.len() + 1,
        pushed(pushed(h, s), s) == pushed(h, s),
        pushed(pushed(h, s), s).len() == pushed(h, s).len(),
        history_ok(h) ==> history_ok(pushed(h, s)),
{
    let p = pushed(h, s);
    assert(p.len() > 0 && p.last().0 == s.0);
    if history_ok(h) && !(h.len() > 0 && h.last().0 == s.0) {
        assert forall|i: int| 0 < i < p.len() implies (#[trigger] p[i]).0 != p[i - 1].0 by {
            if i < h.len() {
                assert(p[i] == h[i] && p[i - 1] == h[i - 1]);
            }
        }
    }
}

/// Reloading a history entry by entry, as its stored list gives it, yields
/// the same history: no entry is dropped, since none repeats the hash of the
/// one before.
pub proof fn lemma_history_reload(h: Seq<SnapshotView>)
    requires
        history_ok(h),
    ensures
        pushed_all(Seq::empty(), h) == h,
    decreases h.len(),
{
    if h.len() > 0 {
        let t = h.drop_last();
        assert(history_ok(t)) by {
            assert forall|i: int| 0 < i < t.len() implies (#[trigger] t[i]).0 != t[i - 1].0 by {
                assert(t[i] == h[i] && t[i - 1] == h[i - 1]);
            }
        }
        lemma_history_reload(t);
        if t.len() > 0 {
            assert(h[h.len() - 1].0 != h[h.len() - 2].0);
        }
        assert(t.push(h.last()) =~= h);
    }
}

} // verus!
