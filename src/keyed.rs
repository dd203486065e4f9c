use vstd::prelude::*;

use crate::text::chars_of;

verus! {

/// Lexicographic order of character sequences by code point from index `i`
/// on, the order of `str`'s `Ord`.
pub open spec fn lex_lt_from(a: Seq<char>, b: Seq<char>, i: int) -> bool
    decreases a.len() - i,
{
    if i >= a.len() {
        i < b.len()
    } else if i >= b.len() {
        false
    } else if (a[i] as u32) < (b[i] as u32) {
        true
    } else if (a[i] as u32) > (b[i] as u32) {
        false
    } else {
        lex_lt_from(a, b, i + 1)
    }
}

/// `a` sorts strictly before `b`.
pub open spec fn lex_lt(a: Seq<char>, b: Seq<char>) -> bool {
    lex_lt_from(a, b, 0)
}

proof fn lemma_lex_asym_from(a: Seq<char>, b: Seq<char>, i: int)
    requires
        0 <= i,
    ensures
        !(lex_lt_from(a, b, i) && lex_lt_from(b, a, i)),
    decreases a.len() - i,
{
    if i < a.len() && i < b.len() && (a[i] as u32) == (b[i] as u32) {
        lemma_lex_asym_from(a, b, i + 1);
    }
}

proof fn lemma_lex_trans_from(a: Seq<char>, b: Seq<char>, c: Seq<char>, i: int)
    requires
        0 <= i,
        lex_lt_from(a, b, i),
        lex_lt_from(b, c, i),
    ensures
        lex_lt_from(a, c, i),
    decreases a.len() - i,
{
    if i < a.len() && i < b.len() && i < c.len() && (a[i] as u32) == (b[i] as u32) && (b[i] as u32)
        == (c[i] as u32) {
        lemma_lex_trans_from(a, b, c, i + 1);
    }
}

proof fn lemma_lex_total_from(a: Seq<char>, b: Seq<char>, i: int)
    requires
        0 <= i <= a.len(),
        i <= b.len(),
        forall|j: int| 0 <= j < i ==> a[j] == b[j],
        !lex_lt_from(a, b, i),
        !lex_lt_from(b, a, i),
    ensures
        a == b,
    decreases a.len() - i,
{
    if i == a.len() {
        assert(a =~= b);
    } else {
        let (x, y) = (a[i], b[i]);
        assert(x as u32 == y as u32);
        vstd::utf8::char_u32_cast(x, x as u32);
        vstd::utf8::char_u32_cast(y, y as u32);
        assert(x == y);
        lemma_lex_total_from(a, b, i + 1);
    }
}

/// The order is a strict total order.
pub proof fn lemma_lex_order(a: Seq<char>, b: Seq<char>, c: Seq<char>)
    ensures
        !lex_lt(a, a),
        !(lex_lt(a, b) && lex_lt(b, a)),
        lex_lt(a, b) && lex_lt(b, c) ==> lex_lt(a, c),
        a != b ==> lex_lt(a, b) || lex_lt(b, a),
{
    lemma_lex_asym_from(a, a, 0);
    lemma_lex_asym_from(a, b, 0);
    if lex_lt(a, b) && lex_lt(b, c) {
        lemma_lex_trans_from(a, b, c, 0);
    }
    if !lex_lt(a, b) && !lex_lt(b, a) {
        lemma_lex_total_from(a, b, 0);
    }
}

/// Whether `a` sorts strictly before `b`.
pub fn text_lt(a: &str, b: &str) -> (r: bool)
    ensures
        r == lex_lt(a@, b@),
{
    let x = chars_of(a);
    let y = chars_of(b);
    let mut i: usize = 0;
    loop
        invariant
            x@ == a@,
            y@ == b@,
            i <= x.len(),
            i <= y.len(),
            lex_lt(a@, b@) == lex_lt_from(a@, b@, i as int),
        decreases x.len() - i,
    {
        if i >= x.len() {
            return i < y.len();
        }
        if i >= y.len() {
            return false;
        }
        let (u, v) = (x[i] as u32, y[i] as u32);
        if u < v {
            return true;
        }
        if u > v {
            return false;
        }
        i = i + 1;
    }
}

/// Keys strictly ascending: unique, and in canonical order.
pub open spec fn keys_sorted<X>(s: Seq<(Seq<char>, X)>) -> bool {
    forall|i: int, j: int| 0 <= i < j < s.len() ==> lex_lt(#[trigger] s[i].0, #[trigger] s[j].0)
}

/// The map that a sequence of (key, value) pairs describes, a later pair
/// winning over an earlier one of the same key.
pub open spec fn pairs_map<X>(s: Seq<(Seq<char>, X)>) -> Map<Seq<char>, X>
    decreases s.len(),
{
    if s.len() == 0 {
        Map::empty()
    } else {
        pairs_map(s.drop_last()).insert(s.last().0, s.last().1)
    }
}

pub proof fn lemma_pairs_map<X>(s: Seq<(Seq<char>, X)>)
    requires
        keys_sorted(s),
    ensures
        forall|i: int|
            0 <= i < s.len() ==> #[trigger] pairs_map(s).contains_key(s[i].0) && pairs_map(s)[s[i].0]
                == s[i].1,
        forall|k: Seq<char>|
            #[trigger] pairs_map(s).contains_key(k) ==> exists|i: int| 0 <= i < s.len() && s[i].0 == k,
    decreases s.len(),
{
    if s.len() > 0 {
        let t = s.drop_last();
        assert(keys_sorted(t)) by {
            assert forall|i: int, j: int| 0 <= i < j < t.len() implies lex_lt(
                #[trigger] t[i].0,
                #[trigger] t[j].0,
            ) by {
                assert(s[i] == t[i] && s[j] == t[j]);
            }
        }
        lemma_pairs_map(t);
        assert forall|i: int| 0 <= i < s.len() implies #[trigger] pairs_map(s).contains_key(s[i].0)
            && pairs_map(s)[s[i].0] == s[i].1 by {
            if i < s.len() - 1 {
                assert(t[i] == s[i]);
                assert(pairs_map(t).contains_key(t[i].0));
                assert(lex_lt(s[i].0, s[s.len() - 1].0));
                lemma_lex_order(s[i].0, s[s.len() - 1].0, s[i].0);
            }
        }
        assert forall|k: Seq<char>| #[trigger] pairs_map(s).contains_key(k) implies exists|i: int|
            0 <= i < s.len() && s[i].0 == k by {
            if k != s.last().0 {
                assert(pairs_map(t).contains_key(k));
                let i = choose|i: int| 0 <= i < t.len() && t[i].0 == k;
                assert(s[i] == t[i]);
            } else {
                assert(s[s.len() - 1].0 == k);
            }
        }
    }
}

/// Two sorted sequences that describe one map are the same sequence.
pub proof fn lemma_sorted_unique<X>(a: Seq<(Seq<char>, X)>, b: Seq<(Seq<char>, X)>)
    requires
        keys_sorted(a),
        keys_sorted(b),
        pairs_map(a) == pairs_map(b),
    ensures
        a == b,
    decreases a.len(),
{
    lemma_pairs_map(a);
    lemma_pairs_map(b);
    if a.len() == 0 {
        if b.len() > 0 {
            assert(pairs_map(b).contains_key(b[0].0));
        }
        assert(a =~= b);
    } else if b.len() == 0 {
        assert(pairs_map(a).contains_key(a[0].0));
    } else {
        let la = a.len() - 1;
        let lb = b.len() - 1;
        assert(pairs_map(a).contains_key(a[la].0));
        let j = choose|j: int| 0 <= j < b.len() && b[j].0 == a[la].0;
        assert(pairs_map(b).contains_key(b[lb].0));
        let i = choose|i: int| 0 <= i < a.len() && a[i].0 == b[lb].0;
        if j < lb {
            assert(lex_lt(b[j].0, b[lb].0));
            if i < la {
                assert(lex_lt(a[i].0, a[la].0));
            }
            lemma_lex_order(b[j].0, b[lb].0, b[j].0);
            assert(false);
        }
        assert(a[la].0 == b[lb].0);
        assert(a[la].1 == b[lb].1);
        assert(a[la] == b[lb]);
        let ta = a.drop_last();
        let tb = b.drop_last();
        assert(keys_sorted(ta)) by {
            assert forall|x: int, y: int| 0 <= x < y < ta.len() implies lex_lt(
                #[trigger] ta[x].0,
                #[trigger] ta[y].0,
            ) by {
                assert(a[x] == ta[x] && a[y] == ta[y]);
            }
        }
        assert(keys_sorted(tb)) by {
            assert forall|x: int, y: int| 0 <= x < y < tb.len() implies lex_lt(
                #[trigger] tb[x].0,
                #[trigger] tb[y].0,
            ) by {
                assert(b[x] == tb[x] && b[y] == tb[y]);
            }
        }
        lemma_pairs_map(ta);
        lemma_pairs_map(tb);
        let k = a[la].0;
        assert(!pairs_map(ta).contains_key(k)) by {
            if pairs_map(ta).contains_key(k) {
                let x = choose|x: int| 0 <= x < ta.len() && ta[x].0 == k;
                assert(a[x] == ta[x]);
                assert(lex_lt(a[x].0, a[la].0));
                lemma_lex_order(k, k, k);
            }
        }
        assert(!pairs_map(tb).contains_key(k)) by {
            if pairs_map(tb).contains_key(k) {
                let x = choose|x: int| 0 <= x < tb.len() && tb[x].0 == k;
                assert(b[x] == tb[x]);
                assert(lex_lt(b[x].0, b[lb].0));
                lemma_lex_order(k, k, k);
            }
        }
        assert(pairs_map(ta) =~= pairs_map(a).remove(k));
        assert(pairs_map(tb) =~= pairs_map(b).remove(k));
        lemma_sorted_unique(ta, tb);
        assert(a =~= ta.push(a[la]));
        assert(b =~= tb.push(b[lb]));
    }
}

} // verus!
