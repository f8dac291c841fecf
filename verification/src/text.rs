//! Character-level text utilities shared by the tokenizer, the prompt builders and the
//! output post-processing: Unicode white space, trimming, substring search and replacement.
use vstd::prelude::*;

verus! {

/// The code points that carry Unicode's `White_Space` property.
pub open spec fn is_white_space(c: char) -> bool {
    let u = c as u32;
    ||| 0x09 <= u <= 0x0D
    ||| u == 0x20
    ||| u == 0x85
    ||| u == 0xA0
    ||| u == 0x1680
    ||| 0x2000 <= u <= 0x200A
    ||| u == 0x2028
    ||| u == 0x2029
    ||| u == 0x202F
    ||| u == 0x205F
    ||| u == 0x3000
}

/// Whether `c` is white space in the sense of Unicode's `White_Space` property.
pub fn is_ws(c: char) -> (r: bool)
    ensures
        r == is_white_space(c),
{
    let u = c as u32;
    (0x09 <= u && u <= 0x0D) || u == 0x20 || u == 0x85 || u == 0xA0 || u == 0x1680 || (0x2000
        <= u && u <= 0x200A) || u == 0x2028 || u == 0x2029 || u == 0x202F || u == 0x205F || u
        == 0x3000
}

/// `s` without its leading white space.
pub open spec fn trim_start(s: Seq<char>) -> Seq<char>
    decreases s.len(),
{
    if s.len() > 0 && is_white_space(s[0]) {
        trim_start(s.drop_first())
    } else {
        s
    }
}

/// `s` without its trailing white space.
pub open spec fn trim_end(s: Seq<char>) -> Seq<char>
    decreases s.len(),
{
    if s.len() > 0 && is_white_space(s.last()) {
        trim_end(s.drop_last())
    } else {
        s
    }
}

/// `s` without leading and trailing white space.
pub open spec fn trim(s: Seq<char>) -> Seq<char> {
    trim_end(trim_start(s))
}

proof fn lemma_trim_start_skip(s: Seq<char>, k: int)
    requires
        0 <= k <= s.len(),
        forall|i: int| 0 <= i < k ==> is_white_space(#[trigger] s[i]),
        k == s.len() || !is_white_space(s[k]),
    ensures
        trim_start(s) == s.skip(k),
    decreases k,
{
    if k == 0 {
        assert(s.skip(0) =~= s);
    } else {
        let t = s.drop_first();
        assert forall|i: int| 0 <= i < k - 1 implies is_white_space(#[trigger] t[i]) by {
            assert(t[i] == s[i + 1]);
        }
        if k - 1 < t.len() {
            assert(t[k - 1] == s[k]);
        }
        lemma_trim_start_skip(t, k - 1);
        assert(t.skip(k - 1) =~= s.skip(k));
    }
}

proof fn lemma_trim_end_take(s: Seq<char>, k: int)
    requires
        0 <= k <= s.len(),
        forall|i: int| k <= i < s.len() ==> is_white_space(#[trigger] s[i]),
        k == 0 || !is_white_space(s[k - 1]),
    ensures
        trim_end(s) == s.take(k),
    decreases s.len() - k,
{
    if k == s.len() {
        assert(s.take(k) =~= s);
    } else {
        let t = s.drop_last();
        assert(is_white_space(s[s.len() - 1]));
        assert forall|i: int| k <= i < t.len() implies is_white_space(#[trigger] t[i]) by {
            assert(t[i] == s[i]);
        }
        if k > 0 {
            assert(t[k - 1] == s[k - 1]);
        }
        lemma_trim_end_take(t, k);
        assert(t.take(k) =~= s.take(k));
    }
}

/// `s` without leading and trailing white space.
pub fn trim_chars(s: &Vec<char>) -> (r: Vec<char>)
    ensures
        r@ == trim(s@),
{
    let n = s.len();
    let mut lo: usize = 0;
    while lo < n && is_ws(s[lo])
        invariant
            lo <= n,
            n == s@.len(),
            forall|i: int| 0 <= i < lo ==> is_white_space(#[trigger] s@[i]),
        decreases n - lo,
    {
        lo = lo + 1;
    }
    proof {
        lemma_trim_start_skip(s@, lo as int);
    }
    let ghost t = s@.skip(lo as int);
    let mut hi: usize = n;
    while hi > lo && is_ws(s[hi - 1])
        invariant
            lo <= hi <= n,
            n == s@.len(),
            t == s@.skip(lo as int),
            forall|i: int| hi <= i < n ==> is_white_space(#[trigger] s@[i]),
        decreases hi,
    {
        hi = hi - 1;
    }
    proof {
        assert forall|i: int| hi - lo <= i < t.len() implies is_white_space(#[trigger] t[i]) by {
            assert(t[i] == s@[i + lo]);
        }
        if hi > lo {
            assert(t[hi - lo - 1] == s@[hi - 1]);
        }
        lemma_trim_end_take(t, hi - lo);
    }
    let mut r: Vec<char> = Vec::new();
    let mut i = lo;
    while i < hi
        invariant
            lo <= i <= hi <= n,
            n == s@.len(),
            r@ == s@.subrange(lo as int, i as int),
        decreases hi - i,
    {
        r.push(s[i]);
        i = i + 1;
    }
    assert(r@ =~= t.take(hi - lo));
    r
}

/// Whether `pat` occurs in `s` starting at index `i`.
pub open spec fn occurs_at(s: Seq<char>, pat: Seq<char>, i: int) -> bool {
    0 <= i && i + pat.len() <= s.len() && s.subrange(i, i + pat.len()) == pat
}

/// The first index `>= start` at which `pat` occurs in `s`, or `-1` if there is none.
pub open spec fn find_from(s: Seq<char>, pat: Seq<char>, start: int) -> int
    decreases s.len() + 1 - start,
{
    if start < 0 || start + pat.len() > s.len() {
        -1
    } else if occurs_at(s, pat, start) {
        start
    } else {
        find_from(s, pat, start + 1)
    }
}

/// Characterises `find_from`: the result is the least occurrence at or after `start`.
pub proof fn lemma_find_from(s: Seq<char>, pat: Seq<char>, start: int)
    requires
        0 <= start,
    ensures
        find_from(s, pat, start) == -1 || (start <= find_from(s, pat, start) && occurs_at(
            s,
            pat,
            find_from(s, pat, start),
        )),
        forall|j: int|
            start <= j && (find_from(s, pat, start) == -1 || j < find_from(s, pat, start))
                ==> !occurs_at(s, pat, j),
    decreases s.len() - start,
{
    if start + pat.len() > s.len() {
    } else if occurs_at(s, pat, start) {
    } else {
        if pat.len() == 0 {
            assert(s.subrange(start, start) =~= pat);
        }
        lemma_find_from(s, pat, start + 1);
    }
}

/// Searching `x + c` from inside its `c` part finds what searching `c` finds, shifted.
pub proof fn lemma_find_from_shift(x: Seq<char>, c: Seq<char>, pat: Seq<char>, j: int)
    requires
        0 <= j,
    ensures
        find_from(x + c, pat, x.len() + j) == (if find_from(c, pat, j) < 0 {
            -1
        } else {
            x.len() + find_from(c, pat, j)
        }),
    decreases c.len() + 1 - j,
{
    let s = x + c;
    if j + pat.len() > c.len() {
    } else {
        assert(s.subrange(x.len() + j, x.len() + j + pat.len()) =~= c.subrange(j, j + pat.len()));
        if !occurs_at(c, pat, j) {
            lemma_find_from_shift(x, c, pat, j + 1);
            lemma_find_from(c, pat, j + 1);
        }
    }
}

/// Whether `pat` occurs in `s` at index `i` (executable).
pub fn matches_at(s: &Vec<char>, pat: &Vec<char>, i: usize) -> (r: bool)
    ensures
        r == occurs_at(s@, pat@, i as int),
{
    let n = s.len();
    if i > n || pat.len() > n - i {
        return false;
    }
    let mut k: usize = 0;
    while k < pat.len()
        invariant
            n == s@.len(),
            i + pat@.len() <= s@.len(),
            k <= pat@.len(),
            forall|j: int| 0 <= j < k ==> s@[i + j] == pat@[j],
        decreases pat@.len() - k,
    {
        assert(i + k < s@.len());
        if s[i + k] != pat[k] {
            assert(s@.subrange(i as int, i + pat@.len())[k as int] != pat@[k as int]);
            return false;
        }
        k = k + 1;
    }
    assert(s@.subrange(i as int, i + pat@.len()) =~= pat@);
    true
}

/// The first index `>= start` at which `pat` occurs in `s`.
pub fn find_chars(s: &Vec<char>, pat: &Vec<char>, start: usize) -> (r: Option<usize>)
    ensures
        match r {
            Some(i) => i == find_from(s@, pat@, start as int),
            None => find_from(s@, pat@, start as int) == -1,
        },
{
    let mut i = start;
    if i > s.len() {
        return None;
    }
    while pat.len() <= s.len() - i
        invariant
            start <= i <= s@.len(),
            find_from(s@, pat@, start as int) == find_from(s@, pat@, i as int),
        decreases s@.len() - i,
    {
        if matches_at(s, pat, i) {
            return Some(i);
        }
        if pat.len() == 0 {
            assert(s@.subrange(i as int, i as int) =~= pat@);
        }
        i = i + 1;
    }
    None
}

/// `s` with every non-overlapping occurrence of `pat` at or after `pos`, scanned from the
/// left, replaced by `rep`; the part before `pos` is dropped.
pub open spec fn replace_from(s: Seq<char>, pat: Seq<char>, rep: Seq<char>, pos: int) -> Seq<
    char,
>
    decreases s.len() + 1 - pos,
{
    if pos < 0 || pos > s.len() || pat.len() == 0 {
        s.skip(pos)
    } else {
        let i = find_from(s, pat, pos);
        if i < pos || i + pat.len() > s.len() {
            s.skip(pos)
        } else {
            s.subrange(pos, i) + rep + replace_from(s, pat, rep, i + pat.len())
        }
    }
}

/// `s` with every non-overlapping occurrence of a non-empty `pat`, scanned from the left,
/// replaced by `rep` (what `str::replace` computes).
pub open spec fn replace_all(s: Seq<char>, pat: Seq<char>, rep: Seq<char>) -> Seq<char> {
    replace_from(s, pat, rep, 0)
}

/// Replaces every non-overlapping occurrence of the non-empty `pat` in `s` by `rep`.
pub fn replace_chars(s: &Vec<char>, pat: &Vec<char>, rep: &Vec<char>) -> (r: Vec<char>)
    requires
        pat@.len() > 0,
    ensures
        r@ == replace_all(s@, pat@, rep@),
{
    let mut out: Vec<char> = Vec::new();
    let mut pos: usize = 0;
    let n = s.len();
    loop
        invariant
            n == s@.len(),
            pos <= s@.len(),
            pat@.len() > 0,
            out@ + replace_from(s@, pat@, rep@, pos as int) == replace_all(s@, pat@, rep@),
        decreases s@.len() - pos,
    {
        proof {
            lemma_find_from(s@, pat@, pos as int);
        }
        match find_chars(s, pat, pos) {
            None => {
                let ghost o = out@;
                let mut k = pos;
                while k < s.len()
                    invariant
                        pos <= k <= s@.len(),
                        out@ == o + s@.subrange(pos as int, k as int),
                    decreases s@.len() - k,
                {
                    out.push(s[k]);
                    k = k + 1;
                }
                assert(s@.subrange(pos as int, s@.len() as int) =~= s@.skip(pos as int));
                assert(out@ == replace_all(s@, pat@, rep@));
                return out;
            },
            Some(i) => {
                let ghost o = out@;
                let mut k = pos;
                while k < i
                    invariant
                        pos <= k <= i,
                        i + pat@.len() <= s@.len(),
                        out@ == o + s@.subrange(pos as int, k as int),
                    decreases i - k,
                {
                    out.push(s[k]);
                    k = k + 1;
                }
                let ghost o2 = out@;
                let mut j: usize = 0;
                while j < rep.len()
                    invariant
                        j <= rep@.len(),
                        out@ == o2 + rep@.take(j as int),
                    decreases rep@.len() - j,
                {
                    out.push(rep[j]);
                    j = j + 1;
                }
                assert(rep@.take(rep@.len() as int) =~= rep@);
                assert(out@ == o + s@.subrange(pos as int, i as int) + rep@);
                assert(out@ + replace_from(s@, pat@, rep@, i + pat@.len()) =~= o
                    + replace_from(s@, pat@, rep@, pos as int));
                assert(occurs_at(s@, pat@, i as int));
                pos = i + pat.len();
            },
        }
    }
}

/// The first index of `c` in `s`, or `-1` if `c` does not occur.
pub open spec fn first_index_of(s: Seq<char>, c: char) -> int
    decreases s.len(),
{
    if s.len() == 0 {
        -1
    } else if s[0] == c {
        0
    } else if first_index_of(s.drop_first(), c) < 0 {
        -1
    } else {
        1 + first_index_of(s.drop_first(), c)
    }
}

proof fn lemma_first_index_of(s: Seq<char>, c: char, k: int)
    requires
        0 <= k <= s.len(),
        forall|i: int| 0 <= i < k ==> s[i] != c,
    ensures
        k == s.len() ==> first_index_of(s, c) == -1,
        k < s.len() && s[k] == c ==> first_index_of(s, c) == k,
    decreases k,
{
    if k > 0 {
        let t = s.drop_first();
        assert forall|i: int| 0 <= i < k - 1 implies t[i] != c by {
            assert(t[i] == s[i + 1]);
        }
        lemma_first_index_of(t, c, k - 1);
    } else if s.len() > 0 {
    }
}

/// The first index of `c` in `s`.
pub fn first_index(s: &Vec<char>, c: char) -> (r: Option<usize>)
    ensures
        match r {
            Some(i) => i == first_index_of(s@, c) && i < s@.len() && s@[i as int] == c,
            None => first_index_of(s@, c) == -1,
        },
{
    let mut i: usize = 0;
    while i < s.len()
        invariant
            i <= s@.len(),
            forall|j: int| 0 <= j < i ==> s@[j] != c,
        decreases s@.len() - i,
    {
        if s[i] == c {
            proof {
                lemma_first_index_of(s@, c, i as int);
            }
            return Some(i);
        }
        i = i + 1;
    }
    proof {
        lemma_first_index_of(s@, c, i as int);
    }
    None
}

/// The elements of `items` joined with `sep` between consecutive ones.
pub open spec fn join(items: Seq<Seq<char>>, sep: Seq<char>) -> Seq<char>
    decreases items.len(),
{
    if items.len() == 0 {
        seq![]
    } else if items.len() == 1 {
        items[0]
    } else {
        join(items.drop_last(), sep) + sep + items.last()
    }
}

/// The character sequences of a list of strings.
pub open spec fn views_of(items: Seq<String>) -> Seq<Seq<char>> {
    items.map_values(|t: String| t@)
}

/// `items` joined with `sep` between consecutive elements (`[String]::join`).
pub fn join_strings(items: &[String], sep: &Vec<char>) -> (r: Vec<char>)
    ensures
        r@ == join(views_of(items@), sep@),
{
    let mut out: Vec<char> = Vec::new();
    let mut i: usize = 0;
    while i < items.len()
        invariant
            i <= items@.len(),
            out@ == join(views_of(items@.take(i as int)), sep@),
        decreases items@.len() - i,
    {
        let ghost prev = items@.take(i as int);
        if i > 0 {
            extend_chars(&mut out, sep);
        }
        let t = chars_of(items[i].as_str());
        extend_chars(&mut out, &t);
        proof {
            let cur = items@.take(i + 1);
            assert(cur.drop_last() =~= prev);
            assert(views_of(cur).drop_last() =~= views_of(prev));
            assert(views_of(cur).last() == items@[i as int]@);
            if i == 0 {
                assert(views_of(cur) =~= seq![items@[0]@]);
            }
        }
        i = i + 1;
    }
    assert(items@.take(items@.len() as int) =~= items@);
    out
}

/// Whether two character vectors hold the same characters.
pub fn vec_chars_eq(a: &Vec<char>, b: &Vec<char>) -> (r: bool)
    ensures
        r == (a@ == b@),
{
    if a.len() != b.len() {
        return false;
    }
    let mut i: usize = 0;
    while i < a.len()
        invariant
            i <= a@.len(),
            a@.len() == b@.len(),
            forall|j: int| 0 <= j < i ==> a@[j] == b@[j],
        decreases a@.len() - i,
    {
        if a[i] != b[i] {
            return false;
        }
        i = i + 1;
    }
    assert(a@ =~= b@);
    true
}

/// A copy of the characters of `v`.
pub fn copy_chars(v: &Vec<char>) -> (r: Vec<char>)
    ensures
        r@ == v@,
{
    let mut r: Vec<char> = Vec::new();
    extend_chars(&mut r, v);
    assert(r@ =~= v@);
    r
}

/// Appends `c` to `s` (`String::push`).
#[verifier::external_body]
fn push_char(s: &mut String, c: char)
    ensures
        final(s)@ == old(s)@.push(c),
{
    s.push(c)
}

/// The string made of the characters of `v`, in order.
pub fn string_of(v: &Vec<char>) -> (r: String)
    ensures
        r@ == v@,
{
    let mut s = String::new();
    let mut i: usize = 0;
    while i < v.len()
        invariant
            i <= v@.len(),
            s@ == v@.take(i as int),
        decreases v@.len() - i,
    {
        push_char(&mut s, v[i]);
        assert(v@.take(i + 1) =~= v@.take(i as int).push(v@[i as int]));
        i = i + 1;
    }
    assert(v@.take(v@.len() as int) =~= v@);
    s
}

/// The characters of `s`, in order.
pub fn chars_of(s: &str) -> (r: Vec<char>)
    ensures
        r@ == s@,
{
    broadcast use vstd::string::group_string_axioms;

    let mut v: Vec<char> = Vec::new();
    for c in it: s.chars()
        invariant
            v@ == it.seq().take(it.index() as int),
            it.seq() == s@,
    {
        v.push(c);
    }
    v
}

/// Appends the characters of `t` to `v`.
pub fn extend_chars(v: &mut Vec<char>, t: &Vec<char>)
    ensures
        final(v)@ == old(v)@ + t@,
{
    let mut i: usize = 0;
    while i < t.len()
        invariant
            i <= t@.len(),
            v@ == old(v)@ + t@.take(i as int),
        decreases t@.len() - i,
    {
        v.push(t[i]);
        assert(t@.take(i + 1) =~= t@.take(i as int).push(t@[i as int]));
        i = i + 1;
    }
    assert(t@.take(t@.len() as int) =~= t@);
}

/// The decimal digit character for `d`.
pub open spec fn digit_char(d: int) -> char {
    ((48 + d) as u8) as char
}

/// The decimal representation of `n` (what `format!("{n}")` prints).
pub open spec fn decimal(n: nat) -> Seq<char>
    decreases n,
{
    if n < 10 {
        seq![digit_char(n as int)]
    } else {
        decimal(n / 10).push(digit_char((n % 10) as int))
    }
}

/// The decimal representation of `n`.
pub fn decimal_chars(n: usize) -> (r: Vec<char>)
    ensures
        r@ == decimal(n as nat),
    decreases n,
{
    let d = (48 + (n % 10)) as u8;
    if n < 10 {
        let mut r: Vec<char> = Vec::new();
        r.push(d as char);
        assert(r@ =~= decimal(n as nat));
        r
    } else {
        let mut r = decimal_chars(n / 10);
        r.push(d as char);
        r
    }
}

} // verus!
