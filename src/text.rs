//! Character-level helpers on `str`: splitting on a separator or on a set of
//! characters, trimming white space, and UTF-8 lengths.
use vstd::prelude::*;

verus! {

/// The characters of `s`, in order.
pub fn chars_of(s: &str) -> (r: Vec<char>)
    ensures
        r@ == s@,
{
    let mut r: Vec<char> = Vec::new();
    for c in it: s.chars()
        invariant
            r@ == it.seq().subrange(0, it.index() as int),
    {
        r.push(c);
    }
    r
}

/// Whether `c` has the Unicode White_Space property.
pub open spec fn is_white_space(c: char) -> bool {
    let u = c as u32;
    ||| 0x09 <= u <= 0x0d
    ||| u == 0x20
    ||| u == 0x85
    ||| u == 0xa0
    ||| u == 0x1680
    ||| 0x2000 <= u <= 0x200a
    ||| u == 0x2028
    ||| u == 0x2029
    ||| u == 0x202f
    ||| u == 0x205f
    ||| u == 0x3000
}

pub fn white_space(c: char) -> (r: bool)
    ensures
        r == is_white_space(c),
{
    let u = c as u32;
    (0x09 <= u && u <= 0x0d) || u == 0x20 || u == 0x85 || u == 0xa0 || u == 0x1680 || (0x2000 <= u
        && u <= 0x200a) || u == 0x2028 || u == 0x2029 || u == 0x202f || u == 0x205f || u == 0x3000
}

/// `s` without its leading white space.
pub open spec fn trim_start(s: Seq<char>) -> Seq<char>
    decreases s.len(),
{
    if s.len() > 0 && is_white_space(s[0]) {
        trim_start(s.drop_first())
    } else {
        s
    }
}

/// `s` without its trailing white space.
pub open spec fn trim_end(s: Seq<char>) -> Seq<char>
    decreases s.len(),
{
    if s.len() > 0 && is_white_space(s.last()) {
        trim_end(s.drop_last())
    } else {
        s
    }
}

/// `s` without leading and trailing white space.
pub open spec fn trimmed(s: Seq<char>) -> Seq<char> {
    trim_end(trim_start(s))
}

proof fn lemma_trim_start_from(s: Seq<char>, i: int)
    requires
        0 <= i <= s.len(),
        forall|k: int| 0 <= k < i ==> is_white_space(#[trigger] s[k]),
    ensures
        trim_start(s) == trim_start(s.subrange(i, s.len() as int)),
    decreases i,
{
    if i > 0 {
        assert(s.drop_first().subrange(i - 1, s.drop_first().len() as int) =~= s.subrange(
            i,
            s.len() as int,
        ));
        lemma_trim_start_from(s.drop_first(), i - 1);
    } else {
        assert(s.subrange(0, s.len() as int) =~= s);
    }
}

proof fn lemma_trim_end_to(s: Seq<char>, j: int)
    requires
        0 <= j <= s.len(),
        forall|k: int| j <= k < s.len() ==> is_white_space(#[trigger] s[k]),
    ensures
        trim_end(s) == trim_end(s.subrange(0, j)),
    decreases s.len() - j,
{
    if j < s.len() {
        assert(s.drop_last().subrange(0, j) =~= s.subrange(0, j));
        lemma_trim_end_to(s.drop_last(), j);
    } else {
        assert(s.subrange(0, j) =~= s);
    }
}

/// `s` with leading and trailing white space removed.
pub fn trim(s: &str) -> (r: &str)
    ensures
        r@ == trimmed(s@),
{
    let cs = chars_of(s);
    let n = cs.len();
    let mut i: usize = 0;
    while i < n && white_space(cs[i])
        invariant
            i <= n,
            n == s@.len(),
            cs@ == s@,
            forall|k: int| 0 <= k < i ==> is_white_space(#[trigger] s@[k]),
        decreases n - i,
    {
        i = i + 1;
    }
    proof {
        lemma_trim_start_from(s@, i as int);
    }
    let mut j: usize = n;
    while j > i && white_space(cs[j - 1])
        invariant
            i <= j <= n,
            n == s@.len(),
            cs@ == s@,
            forall|k: int| j <= k < n ==> is_white_space(#[trigger] s@[k]),
        decreases j,
    {
        j = j - 1;
    }
    proof {
        let t = s@.subrange(i as int, n as int);
        if i < n {
            assert(!is_white_space(t[0]));
        }
        assert(trim_start(t) == t);
        assert forall|k: int| j - i <= k < t.len() implies is_white_space(#[trigger] t[k]) by {
            assert(t[k] == s@[k + i]);
        }
        lemma_trim_end_to(t, j - i);
        let u = t.subrange(0, j - i);
        assert(u =~= s@.subrange(i as int, j as int));
        if j > i {
            assert(!is_white_space(u.last()));
        }
        assert(trim_end(u) == u);
    }
    s.substring_char(i, j)
}

/// Number of bytes in the UTF-8 encoding of `c`.
pub open spec fn char_utf8_len(c: char) -> nat {
    let u = c as u32;
    if u < 0x80 {
        1
    } else if u < 0x800 {
        2
    } else if u < 0x10000 {
        3
    } else {
        4
    }
}

/// Number of bytes in the UTF-8 encoding of `s`.
pub open spec fn utf8_len(s: Seq<char>) -> nat
    decreases s.len(),
{
    if s.len() == 0 {
        0
    } else {
        utf8_len(s.drop_last()) + char_utf8_len(s.last())
    }
}

proof fn lemma_utf8_len_bounds(s: Seq<char>)
    ensures
        s.len() <= utf8_len(s) <= 4 * s.len(),
    decreases s.len(),
{
    if s.len() > 0 {
        lemma_utf8_len_bounds(s.drop_last());
    }
}

/// The byte length of `s` in UTF-8, as `str::len` gives it.
pub fn utf8_byte_len(s: &str) -> (r: usize)
    requires
        4 * s@.len() <= usize::MAX,
    ensures
        r == utf8_len(s@),
{
    let cs = chars_of(s);
    let mut r: usize = 0;
    let mut i: usize = 0;
    while i < cs.len()
        invariant
            i <= cs.len(),
            cs@ == s@,
            4 * s@.len() <= usize::MAX,
            r == utf8_len(s@.subrange(0, i as int)),
        decreases cs.len() - i,
    {
        proof {
            assert(s@.subrange(0, i + 1).drop_last() =~= s@.subrange(0, i as int));
            lemma_utf8_len_bounds(s@.subrange(0, i as int));
        }
        let u = cs[i] as u32;
        let w: usize = if u < 0x80 {
            1
        } else if u < 0x800 {
            2
        } else if u < 0x10000 {
            3
        } else {
            4
        };
        r = r + w;
        i = i + 1;
    }
    assert(s@.subrange(0, i as int) =~= s@);
    r
}

/// The views of a sequence of string slices.
pub open spec fn str_views(v: Seq<&str>) -> Seq<Seq<char>> {
    v.map_values(|x: &str| x@)
}

/// Whether `sep` occurs in `s` at position `i`.
pub open spec fn occurs_at(s: Seq<char>, sep: Seq<char>, i: int) -> bool {
    0 <= i && i + sep.len() <= s.len() && s.subrange(i, i + sep.len()) == sep
}

/// The pieces of `s` from `start` on, cut at each occurrence of `sep` met
/// scanning left to right from position `i`; an occurrence resumes the scan
/// just after it, so occurrences never overlap.
pub open spec fn split_scan(s: Seq<char>, sep: Seq<char>, start: int, i: int) -> Seq<Seq<char>>
    decreases s.len() - i,
{
    if sep.len() == 0 || i + sep.len() > s.len() {
        seq![s.subrange(start, s.len() as int)]
    } else if occurs_at(s, sep, i) {
        seq![s.subrange(start, i)] + split_scan(s, sep, i + sep.len(), i + sep.len())
    } else {
        split_scan(s, sep, start, i + 1)
    }
}

/// The pieces of `s` between the occurrences of `sep`, as `str::split` with a
/// string pattern yields them.
pub open spec fn split_on_spec(s: Seq<char>, sep: Seq<char>) -> Seq<Seq<char>> {
    split_scan(s, sep, 0, 0)
}

/// `parts` with `sep` between each two neighbours.
pub open spec fn joined(parts: Seq<Seq<char>>, sep: Seq<char>) -> Seq<char>
    decreases parts.len(),
{
    if parts.len() == 0 {
        Seq::empty()
    } else if parts.len() == 1 {
        parts[0]
    } else {
        parts[0] + sep + joined(parts.drop_first(), sep)
    }
}

proof fn lemma_split_scan_nonempty(s: Seq<char>, sep: Seq<char>, start: int, i: int)
    ensures
        split_scan(s, sep, start, i).len() >= 1,
    decreases s.len() - i,
{
    if sep.len() == 0 || i + sep.len() > s.len() {
    } else if occurs_at(s, sep, i) {
        lemma_split_scan_nonempty(s, sep, i + sep.len(), i + sep.len());
    } else {
        lemma_split_scan_nonempty(s, sep, start, i + 1);
    }
}

proof fn lemma_split_scan_rejoins(s: Seq<char>, sep: Seq<char>, start: int, i: int)
    requires
        0 <= start <= i <= s.len(),
    ensures
        joined(split_scan(s, sep, start, i), sep) == s.subrange(start, s.len() as int),
    decreases s.len() - i,
{
    if sep.len() == 0 || i + sep.len() > s.len() {
    } else if occurs_at(s, sep, i) {
        let k = sep.len() as int;
        let rest = split_scan(s, sep, i + k, i + k);
        lemma_split_scan_rejoins(s, sep, i + k, i + k);
        lemma_split_scan_nonempty(s, sep, i + k, i + k);
        let all = seq![s.subrange(start, i)] + rest;
        assert(all.drop_first() =~= rest);
        assert(s.subrange(start, s.len() as int) =~= s.subrange(start, i) + s.subrange(i, i + k)
            + s.subrange(i + k, s.len() as int));
    } else {
        lemma_split_scan_rejoins(s, sep, start, i + 1);
    }
}

/// Splitting yields at least one piece.
pub proof fn lemma_split_nonempty(s: Seq<char>, sep: Seq<char>)
    ensures
        split_on_spec(s, sep).len() >= 1,
{
    lemma_split_scan_nonempty(s, sep, 0, 0);
}

/// Joining the pieces of `s` with the separator gives `s` back.
pub proof fn lemma_split_rejoins(s: Seq<char>, sep: Seq<char>)
    ensures
        joined(split_on_spec(s, sep), sep) == s,
{
    lemma_split_scan_rejoins(s, sep, 0, 0);
    assert(s.subrange(0, s.len() as int) =~= s);
}

fn occurs_at_exec(cs: &Vec<char>, sep: &Vec<char>, i: usize) -> (r: bool)
    requires
        i + sep@.len() <= cs@.len(),
    ensures
        r == occurs_at(cs@, sep@, i as int),
{
    let n = cs.len();
    let mut j: usize = 0;
    while j < sep.len()
        invariant
            n == cs@.len(),
            i + sep@.len() <= cs@.len(),
            j <= sep@.len(),
            forall|k: int| 0 <= k < j ==> cs@[i + k] == #[trigger] sep@[k],
        decreases sep@.len() - j,
    {
        if cs[i + j] != sep[j] {
            assert(cs@.subrange(i as int, i + sep@.len())[j as int] != sep@[j as int]);
            return false;
        }
        j = j + 1;
    }
    assert(cs@.subrange(i as int, i + sep@.len()) =~= sep@);
    true
}

/// The pieces of `s` between the non-overlapping occurrences of `sep`, found
/// left to right.
pub fn split_on<'a>(s: &'a str, sep: &str) -> (parts: Vec<&'a str>)
    requires
        sep@.len() > 0,
    ensures
        str_views(parts@) == split_on_spec(s@, sep@),
{
    let cs = chars_of(s);
    let sc = chars_of(sep);
    let n = cs.len();
    let k = sc.len();
    let mut parts: Vec<&'a str> = Vec::new();
    let mut start: usize = 0;
    let mut i: usize = 0;
    while k <= n && i <= n - k
        invariant
            cs@ == s@,
            sc@ == sep@,
            n == s@.len(),
            k == sep@.len(),
            k > 0,
            start <= i <= n,
            str_views(parts@) + split_scan(s@, sep@, start as int, i as int) == split_on_spec(
                s@,
                sep@,
            ),
        decreases n - i,
    {
        if occurs_at_exec(&cs, &sc, i) {
            let piece = s.substring_char(start, i);
            proof {
                assert(str_views(parts@.push(piece)) =~= str_views(parts@).push(piece@));
                assert(str_views(parts@).push(piece@) + split_scan(s@, sep@, (i + k) as int, (i + k) as int)
                    =~= str_views(parts@) + split_scan(s@, sep@, start as int, i as int));
            }
            parts.push(piece);
            i = i + k;
            start = i;
        } else {
            i = i + 1;
        }
    }
    let last = s.substring_char(start, n);
    proof {
        assert(str_views(parts@.push(last)) =~= str_views(parts@).push(last@));
        assert(str_views(parts@).push(last@) =~= str_views(parts@) + split_scan(s@, sep@, start as int, i as int));
    }
    parts.push(last);
    parts
}

/// Whether `a` and `b` hold the same characters.
pub fn same_text(a: &str, b: &str) -> (r: bool)
    ensures
        r == (a@ == b@),
{
    let ac = chars_of(a);
    let bc = chars_of(b);
    if ac.len() != bc.len() {
        return false;
    }
    let mut i: usize = 0;
    while i < ac.len()
        invariant
            ac@ == a@,
            bc@ == b@,
            ac@.len() == bc@.len(),
            i <= ac@.len(),
            forall|k: int| 0 <= k < i ==> ac@[k] == bc@[k],
        decreases ac@.len() - i,
    {
        if ac[i] != bc[i] {
            return false;
        }
        i = i + 1;
    }
    assert(a@ =~= b@);
    true
}

} // verus!
