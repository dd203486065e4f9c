use vstd::prelude::*;

use indexmap::IndexMap;

use crate::error::Error;
use crate::index_map::{index_entries, index_get, index_insert, index_new};

verus! {

/// One node of the grouping tree: an index from key to child node, or a
/// bucket of values.
#[derive(Debug)]
pub enum BucketNode<V> {
    Index(IndexMap<String, usize>),
    Bucket(Vec<V>),
}

/// A key path: one key per grouping level.
pub type KeyPath = Seq<Seq<char>>;

/// `path` starts with `p`.
pub open spec fn has_prefix(path: KeyPath, p: KeyPath) -> bool {
    p.len() <= path.len() && path.take(p.len() as int) == p
}

/// `path` continues `p` with the key `k`.
pub open spec fn next_key(path: KeyPath, p: KeyPath, k: Seq<char>) -> bool {
    has_prefix(path, p) && path.len() > p.len() && path[p.len() as int] == k
}

/// The keys that follow the prefix `p` in the paths of `items`, each once, in
/// the order in which they first appear.
pub open spec fn keys_under<V>(items: Seq<(KeyPath, V)>, p: KeyPath) -> Seq<Seq<char>>
    decreases items.len(),
{
    if items.len() == 0 {
        seq![]
    } else {
        let prev = keys_under(items.drop_last(), p);
        let q = items.last().0;
        if has_prefix(q, p) && q.len() > p.len() && !prev.contains(q[p.len() as int]) {
            prev.push(q[p.len() as int])
        } else {
            prev
        }
    }
}

/// The values of `items` whose path is `p`, in insertion order.
pub open spec fn bucket_of<V>(items: Seq<(KeyPath, V)>, p: KeyPath) -> Seq<V>
    decreases items.len(),
{
    if items.len() == 0 {
        seq![]
    } else {
        let prev = bucket_of(items.drop_last(), p);
        if items.last().0 == p {
            prev.push(items.last().1)
        } else {
            prev
        }
    }
}

/// Some item's path starts with `p`.
pub open spec fn covered<V>(items: Seq<(KeyPath, V)>, p: KeyPath) -> bool {
    exists|t: int| 0 <= t < items.len() && has_prefix(items[t].0, p)
}

pub open spec fn entry_keys(e: Seq<(Seq<char>, usize)>) -> Seq<Seq<char>> {
    e.map_values(|x: (Seq<char>, usize)| x.0)
}

pub open spec fn key_path(keys: Seq<String>) -> KeyPath {
    keys.map_values(|k: String| k@)
}

/// Node `node` at `path` describes `items`: an index lists the keys under
/// its path with children one level down, a bucket holds the values of its
/// path.
pub open spec fn node_ok<V>(
    node: BucketNode<V>,
    path: KeyPath,
    items: Seq<(KeyPath, V)>,
    paths: Seq<KeyPath>,
) -> bool {
    match node {
        BucketNode::Index(m) => {
            &&& entry_keys(index_entries(m)) == keys_under(items, path)
            &&& forall|j: int|
                0 <= j < index_entries(m).len() ==> (#[trigger] index_entries(m)[j]).1 < paths.len()
                    && paths[index_entries(m)[j].1 as int] == path.push(index_entries(m)[j].0)
        },
        BucketNode::Bucket(b) => b@ == bucket_of(items, path),
    }
}

proof fn lemma_keys_under<V>(items: Seq<(KeyPath, V)>, p: KeyPath)
    ensures
        keys_under(items, p).no_duplicates(),
        forall|k: Seq<char>|
            #[trigger] keys_under(items, p).contains(k) <==> exists|t: int|
                0 <= t < items.len() && next_key(#[trigger] items[t].0, p, k),
    decreases items.len(),
{
    if items.len() > 0 {
        let last = items.len() - 1;
        let d = items.drop_last();
        lemma_keys_under(d, p);
        let prev = keys_under(d, p);
        let q = items[last].0;
        assert(d =~= items.drop_last());
        if has_prefix(q, p) && q.len() > p.len() && !prev.contains(q[p.len() as int]) {
            let x = q[p.len() as int];
            assert(keys_under(items, p) == prev.push(x));
            assert forall|k: Seq<char>| prev.push(x).contains(k) <==> (prev.contains(k) || k == x) by {
                if prev.push(x).contains(k) {
                    let i = choose|i: int| 0 <= i < prev.push(x).len() && prev.push(x)[i] == k;
                    if i < prev.len() {
                        assert(prev[i] == k);
                    }
                }
                if prev.contains(k) {
                    let i = choose|i: int| 0 <= i < prev.len() && prev[i] == k;
                    assert(prev.push(x)[i] == k);
                }
                if k == x {
                    assert(prev.push(x)[prev.len() as int] == k);
                }
            }
            assert(prev.push(x).no_duplicates()) by {
                assert forall|i: int, j: int|
                    0 <= i < prev.push(x).len() && 0 <= j < prev.push(x).len() && i != j implies prev.push(x)[i]
                    != prev.push(x)[j] by {
                    if i < prev.len() && j < prev.len() {
                    } else if i < prev.len() {
                        assert(prev.contains(prev[i]));
                    } else if j < prev.len() {
                        assert(prev.contains(prev[j]));
                    }
                }
            }
        } else {
            assert(keys_under(items, p) == prev);
        }
        assert forall|k: Seq<char>| #[trigger] keys_under(items, p).contains(k) <==> exists|t: int|
            0 <= t < items.len() && next_key(#[trigger] items[t].0, p, k) by {
            if prev.contains(k) {
                let t = choose|t: int| 0 <= t < d.len() && next_key(#[trigger] d[t].0, p, k);
                assert(items[t] == d[t]);
            }
            if exists|t: int| 0 <= t < items.len() && next_key(#[trigger] items[t].0, p, k) {
                let t = choose|t: int| 0 <= t < items.len() && next_key(#[trigger] items[t].0, p, k);
                if t < last {
                    assert(items[t] == d[t]);
                    assert(prev.contains(k));
                }
            }
        }
    }
}

proof fn lemma_nothing_under<V>(items: Seq<(KeyPath, V)>, p: KeyPath)
    requires
        forall|t: int| 0 <= t < items.len() ==> !has_prefix(#[trigger] items[t].0, p),
    ensures
        keys_under(items, p) == Seq::<Seq<char>>::empty(),
        bucket_of(items, p) == Seq::<V>::empty(),
    decreases items.len(),
{
    if items.len() > 0 {
        let d = items.drop_last();
        assert forall|t: int| 0 <= t < d.len() implies !has_prefix(#[trigger] d[t].0, p) by {
            assert(items[t] == d[t]);
        }
        lemma_nothing_under(d, p);
        assert(!has_prefix(items[items.len() - 1].0, p));
        if items.last().0 == p {
            assert(p.take(p.len() as int) =~= p);
        }
    }
}

/// Values grouped by key paths of a fixed length: each level is an index
/// keyed by the text at that position of the path, keys in first-insertion
/// order, and the values of one path sit in one bucket in insertion order.
pub struct HierarchicalBuckets<V> {
    depth: usize,
    nodes: Vec<BucketNode<V>>,
    paths: Ghost<Seq<KeyPath>>,
    items: Ghost<Seq<(KeyPath, V)>>,
}

impl<V> View for HierarchicalBuckets<V> {
    type V = Seq<(KeyPath, V)>;

    /// The (path, value) pairs inserted so far, in order.
    closed spec fn view(&self) -> Seq<(KeyPath, V)> {
        self.items@
    }
}

impl<V> HierarchicalBuckets<V> {
    /// Number of keys in each path.
    pub closed spec fn depth_spec(&self) -> nat {
        self.depth as nat
    }

    pub closed spec fn node_count(&self) -> nat {
        self.nodes@.len()
    }

    /// The key path that leads from the root to node `i`.
    pub closed spec fn path_of(&self, i: int) -> KeyPath {
        self.paths@[i]
    }

    pub closed spec fn wf(&self) -> bool {
        let n = self.nodes@.len();
        let paths = self.paths@;
        let items = self.items@;
        &&& n == paths.len()
        &&& n >= 1
        &&& paths[0] == Seq::<Seq<char>>::empty()
        &&& forall|i: int| 0 <= i < n ==> (#[trigger] paths[i]).len() <= self.depth
        &&& forall|i: int|
            0 <= i < n ==> ((#[trigger] self.nodes@[i] is Bucket) <==> paths[i].len() == self.depth)
        &&& forall|i: int| 0 <= i < n ==> node_ok(#[trigger] self.nodes@[i], paths[i], items, paths)
        &&& forall|i: int, j: int| 0 <= i < n && 0 <= j < n && i != j ==> #[trigger] paths[i] != #[trigger] paths[j]
        &&& forall|i: int| 0 < i < n ==> covered(items, #[trigger] paths[i])
        &&& forall|t: int| 0 <= t < items.len() ==> (#[trigger] items[t]).0.len() == self.depth
    }

    /// An empty tree for paths of `depth` keys: the root is a bucket when
    /// `depth` is 0, an index otherwise.
    pub fn new(depth: usize) -> (r: HierarchicalBuckets<V>)
        ensures
            r.wf(),
            r@ == Seq::<(KeyPath, V)>::empty(),
            r.depth_spec() == depth,
    {
        let root = if depth == 0 {
            BucketNode::Bucket(Vec::new())
        } else {
            BucketNode::Index(index_new())
        };
        let mut nodes: Vec<BucketNode<V>> = Vec::new();
        nodes.push(root);
        let ghost root_paths = seq![Seq::<Seq<char>>::empty()];
        let ghost no_items = Seq::<(KeyPath, V)>::empty();
        let r = HierarchicalBuckets { depth, nodes, paths: Ghost(root_paths), items: Ghost(no_items) };
        proof {
            assert(entry_keys(Seq::<(Seq<char>, usize)>::empty()) =~= seq![]);
            assert(node_ok(r.nodes@[0], r.paths@[0], r.items@, r.paths@));
        }
        r
    }

    pub fn depth(&self) -> (r: usize)
        ensures
            r == self.depth_spec(),
    {
        self.depth
    }

    pub fn node_len(&self) -> (r: usize)
        ensures
            r == self.node_count(),
    {
        self.nodes.len()
    }

    /// Node `i`; node 0 is the root, whose path is empty.
    pub fn node(&self, i: usize) -> (r: &BucketNode<V>)
        requires
            self.wf(),
            i < self.node_count(),
        ensures
            self.path_of(0) == Seq::<Seq<char>>::empty(),
            self.path_of(i as int).len() <= self.depth_spec(),
            r matches BucketNode::Index(m) ==> {
                &&& self.path_of(i as int).len() < self.depth_spec()
                &&& entry_keys(index_entries(*m)) == keys_under(self@, self.path_of(i as int))
                &&& forall|j: int|
                    0 <= j < index_entries(*m).len() ==> (#[trigger] index_entries(*m)[j]).1
                        < self.node_count() && self.path_of(index_entries(*m)[j].1 as int)
                        == self.path_of(i as int).push(index_entries(*m)[j].0)
            },
            r matches BucketNode::Bucket(b) ==> self.path_of(i as int).len() == self.depth_spec()
                && b@ == bucket_of(self@, self.path_of(i as int)),
    {
        assert(node_ok(self.nodes@[i as int], self.paths@[i as int], self.items@, self.paths@));
        &self.nodes[i]
    }
}

proof fn lemma_unaffected<V>(items: Seq<(KeyPath, V)>, q: KeyPath, v: V, p: KeyPath)
    requires
        !has_prefix(q, p),
    ensures
        keys_under(items.push((q, v)), p) == keys_under(items, p),
        bucket_of(items.push((q, v)), p) == bucket_of(items, p),
{
    assert(items.push((q, v)).drop_last() =~= items);
    if q == p {
        assert(q.take(p.len() as int) =~= q);
    }
}

proof fn lemma_node_ok_grow<V>(
    node: BucketNode<V>,
    path: KeyPath,
    items: Seq<(KeyPath, V)>,
    paths: Seq<KeyPath>,
    x: KeyPath,
)
    requires
        node_ok(node, path, items, paths),
    ensures
        node_ok(node, path, items, paths.push(x)),
{
    if let BucketNode::Index(m) = node {
        assert forall|j: int| 0 <= j < index_entries(m).len() implies (#[trigger] index_entries(
            m,
        )[j]).1 < paths.push(x).len() && paths.push(x)[index_entries(m)[j].1 as int] == path.push(
            index_entries(m)[j].0,
        ) by {
            assert(index_entries(m)[j].1 < paths.len());
        }
    }
}

impl<V> HierarchicalBuckets<V> {
    /// Files `value` under the path `keys`. The path must have one key per
    /// level: any other length is an `InvalidIndex` error, with nothing
    /// changed.
    pub fn insert(&mut self, keys: Vec<String>, value: V) -> (r: Result<(), Error>)
        requires
            old(self).wf(),
        ensures
            final(self).wf(),
            final(self).depth_spec() == old(self).depth_spec(),
            keys@.len() == old(self).depth_spec() ==> (r is Ok && final(self)@ == old(self)@.push(
                (key_path(keys@), value),
            )),
            keys@.len() != old(self).depth_spec() ==> (r matches Err(Error::InvalidIndex(_))
                && final(self)@ == old(self)@),
    {
        if keys.len() != self.depth {
            return Err(Error::InvalidIndex("key path length differs from the tree depth".to_owned()));
        }
        let ghost q = key_path(keys@);
        let ghost old_items = self.items@;
        let ghost new_items = old_items.push((q, value));
        let ghost n_old = self.nodes@.len();
        let depth = self.depth;
        proof {
            assert(new_items.drop_last() =~= old_items);
            assert forall|i: int| 0 <= i < self.nodes@.len() && !has_prefix(q, self.paths@[i]) implies node_ok(
                #[trigger] self.nodes@[i],
                self.paths@[i],
                new_items,
                self.paths@,
            ) by {
                assert(node_ok(self.nodes@[i], self.paths@[i], old_items, self.paths@));
                lemma_unaffected(old_items, q, value, self.paths@[i]);
            }
            assert(q.take(0) =~= self.paths@[0]);
        }
        let mut cur: usize = 0;
        let mut d: usize = 0;
        while d < depth
            invariant
                depth == self.depth,
                keys@.len() == depth,
                q == key_path(keys@),
                old_items == self.items@,
                new_items == old_items.push((q, value)),
                new_items.drop_last() == old_items,
                d <= depth,
                cur < self.nodes@.len(),
                self.paths@[cur as int] == q.take(d as int),
                self.nodes@.len() == self.paths@.len(),
                n_old <= self.nodes@.len(),
                n_old >= 1,
                self.paths@[0] == Seq::<Seq<char>>::empty(),
                forall|i: int| 0 <= i < self.nodes@.len() ==> (#[trigger] self.paths@[i]).len() <= depth,
                forall|i: int|
                    0 <= i < self.nodes@.len() ==> ((#[trigger] self.nodes@[i] is Bucket)
                        <==> self.paths@[i].len() == depth),
                forall|i: int|
                    0 <= i < self.nodes@.len() ==> if has_prefix(q, self.paths@[i]) && self.paths@[i].len()
                        >= d {
                        node_ok(#[trigger] self.nodes@[i], self.paths@[i], old_items, self.paths@)
                    } else {
                        node_ok(self.nodes@[i], self.paths@[i], new_items, self.paths@)
                    },
                forall|i: int, j: int|
                    0 <= i < self.nodes@.len() && 0 <= j < self.nodes@.len() && i != j
                        ==> #[trigger] self.paths@[i] != #[trigger] self.paths@[j],
                forall|i: int| 0 < i < n_old ==> covered(old_items, #[trigger] self.paths@[i]),
                forall|i: int|
                    n_old <= i < self.nodes@.len() ==> has_prefix(q, #[trigger] self.paths@[i]) && 0
                        < self.paths@[i].len() <= d,
                forall|t: int| 0 <= t < old_items.len() ==> (#[trigger] old_items[t]).0.len() == depth,
            decreases depth - d,
        {
            let ghost p = q.take(d as int);
            let ghost k = q[d as int];
            assert(keys@[d as int]@ == k);
            assert(q.take(d + 1) =~= p.push(k));
            assert(has_prefix(q, p));
            assert(node_ok(self.nodes@[cur as int], p, old_items, self.paths@));
            let found = match &self.nodes[cur] {
                BucketNode::Index(m) => index_get(m, &keys[d]),
                BucketNode::Bucket(_) => None,
            };
            proof {
                lemma_keys_under(old_items, p);
            }
            match found {
                Some(c) => {
                    proof {
                        let m = self.nodes@[cur as int]->Index_0;
                        let j = choose|j: int|
                            0 <= j < index_entries(m).len() && #[trigger] index_entries(m)[j] == (k, c);
                        assert(entry_keys(index_entries(m))[j] == k);
                        assert(keys_under(old_items, p).contains(k));
                        assert(keys_under(new_items, p) == keys_under(old_items, p));
                        assert(node_ok(self.nodes@[cur as int], p, new_items, self.paths@));
                    }
                    cur = c;
                },
                None => {
                    let ghost pk = p.push(k);
                    proof {
                        let m = self.nodes@[cur as int]->Index_0;
                        assert(!keys_under(old_items, p).contains(k)) by {
                            if keys_under(old_items, p).contains(k) {
                                let j = choose|j: int|
                                    0 <= j < entry_keys(index_entries(m)).len() && entry_keys(
                                        index_entries(m),
                                    )[j] == k;
                                assert(index_entries(m)[j].0 == k);
                            }
                        }
                        assert forall|t: int| 0 <= t < old_items.len() implies !has_prefix(
                            #[trigger] old_items[t].0,
                            pk,
                        ) by {
                            if has_prefix(old_items[t].0, pk) {
                                assert(old_items[t].0.take(d + 1)[d as int] == k);
                                assert(old_items[t].0.take(d as int) =~= pk.take(d as int));
                                assert(pk.take(d as int) =~= p);
                                assert(next_key(old_items[t].0, p, k));
                            }
                        }
                        lemma_nothing_under(old_items, pk);
                        assert(entry_keys(Seq::<(Seq<char>, usize)>::empty()) =~= seq![]);
                        assert forall|i: int| 0 <= i < self.nodes@.len() implies #[trigger] self.paths@[i]
                            != pk by {
                            if i == 0 {
                            } else if i < n_old {
                                if self.paths@[i] == pk {
                                    let t = choose|t: int|
                                        0 <= t < old_items.len() && has_prefix(
                                            old_items[t].0,
                                            self.paths@[i],
                                        );
                                }
                            }
                        }
                    }
                    let new_id = self.nodes.len();
                    let node = if d + 1 == depth {
                        BucketNode::Bucket(Vec::new())
                    } else {
                        BucketNode::Index(index_new())
                    };
                    let ghost paths0 = self.paths@;
                    let ghost nodes0 = self.nodes@;
                    self.nodes.push(node);
                    self.paths = Ghost(paths0.push(pk));
                    proof {
                        assert(node_ok(node, pk, old_items, self.paths@));
                        assert forall|i: int| 0 < i < n_old implies covered(
                            old_items,
                            #[trigger] self.paths@[i],
                        ) by {
                            assert(self.paths@[i] == paths0[i]);
                        }
                        assert forall|i: int| 0 <= i < nodes0.len() implies if has_prefix(
                            q,
                            self.paths@[i],
                        ) && self.paths@[i].len() >= d {
                            node_ok(#[trigger] self.nodes@[i], self.paths@[i], old_items, self.paths@)
                        } else {
                            node_ok(self.nodes@[i], self.paths@[i], new_items, self.paths@)
                        } by {
                            assert(self.nodes@[i] == nodes0[i]);
                            assert(self.paths@[i] == paths0[i]);
                            if has_prefix(q, paths0[i]) && paths0[i].len() >= d {
                                lemma_node_ok_grow(nodes0[i], paths0[i], old_items, paths0, pk);
                            } else {
                                lemma_node_ok_grow(nodes0[i], paths0[i], new_items, paths0, pk);
                            }
                        }
                    }
                    let key = keys[d].clone();
                    match &mut self.nodes[cur] {
                        BucketNode::Index(m) => {
                            index_insert(m, key, new_id);
                        },
                        BucketNode::Bucket(_) => {},
                    }
                    proof {
                        let m = self.nodes@[cur as int]->Index_0;
                        assert(entry_keys(index_entries(m)) =~= keys_under(old_items, p).push(k));
                        assert(keys_under(new_items, p) == keys_under(old_items, p).push(k));
                        assert(node_ok(self.nodes@[cur as int], p, new_items, self.paths@));
                    }
                    cur = new_id;
                },
            }
            d = d + 1;
        }
        proof {
            assert(q.take(depth as int) =~= q);
            assert(node_ok(self.nodes@[cur as int], q, old_items, self.paths@));
        }
        match &mut self.nodes[cur] {
            BucketNode::Bucket(b) => {
                b.push(value);
            },
            BucketNode::Index(_) => {},
        }
        self.items = Ghost(new_items);
        proof {
            assert(bucket_of(new_items, q) == bucket_of(old_items, q).push(value));
        }
        Ok(())
    }
}

} // verus!
