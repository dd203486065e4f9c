use vstd::prelude::*;
use vstd::std_specs::iter::IteratorSpec;

verus! {

broadcast use vstd::string::group_string_axioms;

/// The Unicode `White_Space` property, which `char::is_whitespace` and
/// `str::trim` go by.
pub open spec fn is_ws(c: char) -> bool {
    let u = c as u32;
    (9 <= u && u <= 13) || u == 32 || u == 0x85 || u == 0xA0 || u == 0x1680 || (0x2000 <= u
        && u <= 0x200A) || u == 0x2028 || u == 0x2029 || u == 0x202F || u == 0x205F || u == 0x3000
}

pub fn is_ws_char(c: char) -> (r: bool)
    ensures
        r == is_ws(c),
{
    let u = c as u32;
    (9 <= u && u <= 13) || u == 32 || u == 0x85 || u == 0xA0 || u == 0x1680 || (0x2000 <= u
        && u <= 0x200A) || u == 0x2028 || u == 0x2029 || u == 0x202F || u == 0x205F || u == 0x3000
}

/// Start of `m[lo..hi]` once its leading whitespace is dropped.
pub open spec fn trim_start_at(m: Seq<char>, lo: int, hi: int) -> int
    decreases hi - lo,
{
    if lo >= hi {
        hi
    } else if is_ws(m[lo]) {
        trim_start_at(m, lo + 1, hi)
    } else {
        lo
    }
}

/// End of `m[lo..hi]` once its trailing whitespace is dropped.
pub open spec fn trim_end_at(m: Seq<char>, lo: int, hi: int) -> int
    decreases hi - lo,
{
    if hi <= lo {
        lo
    } else if is_ws(m[hi - 1]) {
        trim_end_at(m, lo, hi - 1)
    } else {
        hi
    }
}

pub proof fn lemma_trim_end_at(m: Seq<char>, lo: int, hi: int)
    requires
        0 <= lo <= hi <= m.len(),
    ensures
        lo <= trim_end_at(m, lo, hi) <= hi,
        trim_end_at(m, lo, hi) > lo ==> !is_ws(m[trim_end_at(m, lo, hi) - 1]),
        forall|i: int| trim_end_at(m, lo, hi) <= i < hi ==> is_ws(#[trigger] m[i]),
    decreases hi - lo,
{
    if hi > lo && is_ws(m[hi - 1]) {
        lemma_trim_end_at(m, lo, hi - 1);
    }
}

/// `m[lo..hi]` without leading and trailing whitespace.
pub open spec fn trimmed_span(m: Seq<char>, lo: int, hi: int) -> Seq<char> {
    let a = trim_start_at(m, lo, hi);
    m.subrange(a, trim_end_at(m, a, hi))
}

/// The characters of `s`, in order.
pub fn chars_of(s: &str) -> (r: Vec<char>)
    ensures
        r@ == s@,
{
    let mut out: Vec<char> = Vec::new();
    let mut it = s.chars();
    loop
        invariant
            it.obeys_prophetic_iter_laws(),
            out@ + it.remaining() == s@,
            it.decrease() is Some,
        decreases it.decrease()->0,
    {
        match it.next() {
            Some(c) => {
                out.push(c);
            },
            None => {
                assert(out@ + it.remaining() == out@);
                return out;
            },
        }
    }
}

/// The characters `s[a..b]` as an owned string.
pub fn text_of(s: &str, a: usize, b: usize) -> (r: String)
    requires
        a <= b <= s@.len(),
    ensures
        r@ == s@.subrange(a as int, b as int),
{
    s.substring_char(a, b).to_owned()
}

pub fn trim_start_index(m: &Vec<char>, lo: usize, hi: usize) -> (r: usize)
    requires
        lo <= hi <= m.len(),
    ensures
        r == trim_start_at(m@, lo as int, hi as int),
        lo <= r <= hi,
{
    let mut i = lo;
    while i < hi && is_ws_char(m[i])
        invariant
            lo <= i <= hi <= m.len(),
            trim_start_at(m@, lo as int, hi as int) == trim_start_at(m@, i as int, hi as int),
        decreases hi - i,
    {
        i = i + 1;
    }
    i
}

pub fn trim_end_index(m: &Vec<char>, lo: usize, hi: usize) -> (r: usize)
    requires
        lo <= hi <= m.len(),
    ensures
        r == trim_end_at(m@, lo as int, hi as int),
        lo <= r <= hi,
{
    let mut j = hi;
    while j > lo && is_ws_char(m[j - 1])
        invariant
            lo <= j <= hi <= m.len(),
            trim_end_at(m@, lo as int, hi as int) == trim_end_at(m@, lo as int, j as int),
        decreases j,
    {
        j = j - 1;
    }
    j
}

/// `s[lo..hi]` without leading and trailing whitespace, where `m` holds the
/// characters of `s`.
pub fn trimmed_text(s: &str, m: &Vec<char>, lo: usize, hi: usize) -> (r: String)
    requires
        m@ == s@,
        lo <= hi <= m.len(),
    ensures
        r@ == trimmed_span(m@, lo as int, hi as int),
{
    let a = trim_start_index(m, lo, hi);
    let b = trim_end_index(m, a, hi);
    text_of(s, a, b)
}

} // verus!
