//! Splitting and trimming of the symbol lists the analysis is given.
use vstd::prelude::*;

verus! {

/// The pieces of `s` between occurrences of `sep`.
pub open spec fn split_on(s: Seq<char>, sep: char) -> Seq<Seq<char>>
    decreases s.len(),
{
    if s.len() == 0 {
        seq![Seq::empty()]
    } else {
        let init = split_on(s.drop_last(), sep);
        if s.last() == sep {
            init.push(Seq::empty())
        } else {
            init.update(init.len() - 1, init.last().push(s.last()))
        }
    }
}

/// The characters with the Unicode `White_Space` property, which
/// `str::trim` removes.
pub open spec fn is_space(c: char) -> bool {
    let u = c as u32;
    (9 <= u <= 13) || u == 32 || u == 0x85 || u == 0xa0 || u == 0x1680 || (0x2000 <= u <= 0x200a) || u == 0x2028
        || u == 0x2029 || u == 0x202f || u == 0x205f || u == 0x3000
}

/// The first position from `i` on that holds no space.
pub open spec fn lead_end(s: Seq<char>, i: int) -> int
    decreases s.len() - i,
{
    if i < 0 || i >= s.len() || !is_space(s[i]) {
        i
    } else {
        lead_end(s, i + 1)
    }
}

/// The end of `s.subrange(lo, j)` once trailing spaces are dropped.
pub open spec fn trail_end(s: Seq<char>, j: int, lo: int) -> int
    decreases j - lo,
{
    if j <= lo || j > s.len() || !is_space(s[j - 1]) {
        j
    } else {
        trail_end(s, j - 1, lo)
    }
}

/// `s` without leading and trailing spaces.
pub open spec fn trimmed(s: Seq<char>) -> Seq<char> {
    let lo = lead_end(s, 0);
    s.subrange(lo, trail_end(s, s.len() as int, lo))
}

/// Where the text after the last `::` in `s.subrange(0, i)` starts.
pub open spec fn leaf_start(s: Seq<char>, i: int) -> int
    decreases i,
{
    if i < 2 || i > s.len() {
        0
    } else if s[i - 2] == ':' && s[i - 1] == ':' {
        i
    } else {
        leaf_start(s, i - 1)
    }
}

/// The leaf name of a path: what follows its last `::`.
pub open spec fn leaf(s: Seq<char>) -> Seq<char> {
    s.subrange(leaf_start(s, s.len() as int), s.len() as int)
}

proof fn lemma_split_on_nonempty(s: Seq<char>, sep: char)
    ensures
        split_on(s, sep).len() >= 1,
    decreases s.len(),
{
    if s.len() > 0 {
        lemma_split_on_nonempty(s.drop_last(), sep);
    }
}

/// The pieces of `s` between occurrences of `sep`.
pub fn split_text(s: &str, sep: char) -> (r: Vec<String>)
    ensures
        r@.map_values(|p: String| p@) == split_on(s@, sep),
{
    let n = s.unicode_len();
    let mut done: Vec<String> = Vec::new();
    let mut start: usize = 0;
    let mut i: usize = 0;
    assert(s@.subrange(0, 0) =~= Seq::<char>::empty());
    assert(done@.map_values(|p: String| p@).push(s@.subrange(0, 0)) =~= split_on(s@.subrange(0, 0), sep));
    while i < n
        invariant
            n == s@.len(),
            0 <= start <= i <= n,
            done@.map_values(|p: String| p@).push(s@.subrange(start as int, i as int)) == split_on(
                s@.subrange(0, i as int),
                sep,
            ),
        decreases n - i,
    {
        let c = s.get_char(i);
        let ghost before = done@.map_values(|p: String| p@);
        proof {
            assert(s@.subrange(0, i + 1).drop_last() =~= s@.subrange(0, i as int));
            lemma_split_on_nonempty(s@.subrange(0, i as int), sep);
        }
        if c == sep {
            let ghost piece_view = s@.subrange(start as int, i as int);
            let piece = s.substring_char(start, i).to_owned();
            done.push(piece);
            assert(done@.map_values(|p: String| p@) =~= before.push(piece_view));
            start = i + 1;
            assert(s@.subrange(start as int, i + 1) =~= Seq::<char>::empty());
            assert(s@.subrange(0, i + 1).last() == sep);
            assert(done@.map_values(|p: String| p@).push(s@.subrange(start as int, i + 1)) =~= split_on(
                s@.subrange(0, i + 1),
                sep,
            ));
        } else {
            assert(s@.subrange(start as int, i + 1) =~= s@.subrange(start as int, i as int).push(c));
            assert(done@.map_values(|p: String| p@).push(s@.subrange(start as int, i + 1)) =~= split_on(
                s@.subrange(0, i + 1),
                sep,
            ));
        }
        i = i + 1;
    }
    let last = s.substring_char(start, n).to_owned();
    done.push(last);
    assert(s@.subrange(0, n as int) =~= s@);
    assert(done@.map_values(|p: String| p@) =~= split_on(s@, sep));
    done
}

fn space_char(c: char) -> (r: bool)
    ensures
        r == is_space(c),
{
    let u = c as u32;
    (9 <= u && u <= 13) || u == 32 || u == 0x85 || u == 0xa0 || u == 0x1680 || (0x2000 <= u && u <= 0x200a) || u
        == 0x2028 || u == 0x2029 || u == 0x202f || u == 0x205f || u == 0x3000
}

/// `s` without leading and trailing spaces.
pub fn trim_text(s: &str) -> (r: String)
    ensures
        r@ == trimmed(s@),
{
    let n = s.unicode_len();
    let mut lo: usize = 0;
    while lo < n && space_char(s.get_char(lo))
        invariant
            n == s@.len(),
            0 <= lo <= n,
            lead_end(s@, 0) == lead_end(s@, lo as int),
        decreases n - lo,
    {
        lo = lo + 1;
    }
    let mut hi: usize = n;
    while hi > lo && space_char(s.get_char(hi - 1))
        invariant
            n == s@.len(),
            lead_end(s@, 0) == lo,
            lo <= hi <= n,
            trail_end(s@, n as int, lo as int) == trail_end(s@, hi as int, lo as int),
        decreases hi - lo,
    {
        hi = hi - 1;
    }
    s.substring_char(lo, hi).to_owned()
}

/// The leaf name of `path`: what follows its last `::`.
pub fn leaf_name(path: &str) -> (r: String)
    ensures
        r@ == leaf(path@),
{
    let n = path.unicode_len();
    let mut i: usize = n;
    while i >= 2 && !(path.get_char(i - 2) == ':' && path.get_char(i - 1) == ':')
        invariant
            n == path@.len(),
            0 <= i <= n,
            leaf_start(path@, n as int) == leaf_start(path@, i as int),
        decreases i,
    {
        i = i - 1;
    }
    let start: usize = if i >= 2 { i } else { 0 };
    path.substring_char(start, n).to_owned()
}

} // verus!

verus! {

/// Whether two texts are equal.
pub fn text_eq(a: &str, b: &str) -> (r: bool)
    ensures
        r == (a@ == b@),
{
    let n = a.unicode_len();
    if n != b.unicode_len() {
        return false;
    }
    let mut i: usize = 0;
    while i < n
        invariant
            n == a@.len(),
            n == b@.len(),
            0 <= i <= n,
            forall|k: int| 0 <= k < i ==> a@[k] == b@[k],
        decreases n - i,
    {
        if a.get_char(i) != b.get_char(i) {
            return false;
        }
        i = i + 1;
    }
    assert(a@ =~= b@);
    true
}

} // verus!
