//! Character-sequence helpers shared by the URL parser and the HTTP client.
use vstd::prelude::*;
use vstd::string::StrSliceExecFns;

verus! {

broadcast use vstd::string::axiom_spec_iter;

/// Position of the first occurrence of `c` in `s`.
pub open spec fn index_of(s: Seq<char>, c: char) -> Option<int>
    decreases s.len(),
{
    if s.len() == 0 {
        None
    } else if s[0] == c {
        Some(0)
    } else {
        match index_of(s.drop_first(), c) {
            Some(i) => Some(i + 1),
            None => None,
        }
    }
}

/// Position of the last occurrence of `c` in `s`.
pub open spec fn last_index_of(s: Seq<char>, c: char) -> Option<int>
    decreases s.len(),
{
    if s.len() == 0 {
        None
    } else if s.last() == c {
        Some(s.len() - 1)
    } else {
        last_index_of(s.drop_last(), c)
    }
}

/// What `index_of` returns is a position of `c` with no earlier one.
pub proof fn lemma_index_of_found(s: Seq<char>, c: char)
    ensures
        index_of(s, c) matches Some(i) ==> 0 <= i < s.len() && s[i] == c && forall|j: int|
            0 <= j < i ==> s[j] != c,
        index_of(s, c) is None ==> forall|j: int| 0 <= j < s.len() ==> s[j] != c,
    decreases s.len(),
{
    if s.len() > 0 {
        lemma_index_of_found(s.drop_first(), c);
        if s[0] != c {
            assert forall|j: int| 1 <= j < s.len() implies s[j] == s.drop_first()[j - 1] by {}
        }
    }
}

/// What `last_index_of` returns is a position of `c` with no later one.
pub proof fn lemma_last_index_of_found(s: Seq<char>, c: char)
    ensures
        last_index_of(s, c) matches Some(i) ==> 0 <= i < s.len() && s[i] == c && forall|j: int|
            i < j < s.len() ==> s[j] != c,
        last_index_of(s, c) is None ==> forall|j: int| 0 <= j < s.len() ==> s[j] != c,
    decreases s.len(),
{
    if s.len() > 0 {
        lemma_last_index_of_found(s.drop_last(), c);
        assert forall|j: int| 0 <= j < s.len() - 1 implies s[j] == s.drop_last()[j] by {}
    }
}

/// `index_of` finds exactly the first position holding `c`.
pub proof fn lemma_index_of(s: Seq<char>, c: char, k: int)
    requires
        0 <= k <= s.len(),
        forall|j: int| 0 <= j < k ==> s[j] != c,
    ensures
        k < s.len() && s[k] == c ==> index_of(s, c) == Some(k),
        k == s.len() ==> index_of(s, c) is None,
    decreases k,
{
    if k > 0 {
        lemma_index_of(s.drop_first(), c, k - 1);
    }
}

/// `last_index_of` finds exactly the last position holding `c`.
pub proof fn lemma_last_index_of(s: Seq<char>, c: char, k: int)
    requires
        -1 <= k < s.len(),
        forall|j: int| k < j < s.len() ==> s[j] != c,
    ensures
        k >= 0 && s[k] == c ==> last_index_of(s, c) == Some(k),
        k == -1 ==> last_index_of(s, c) is None,
    decreases s.len(),
{
    if s.len() > 0 && k < s.len() - 1 {
        lemma_last_index_of(s.drop_last(), c, k);
    }
}

/// The characters of `s`, in order.
pub fn chars_of(s: &str) -> (v: Vec<char>)
    ensures
        v@ == s@,
{
    let mut v: Vec<char> = Vec::new();
    for c in it: s.chars()
        invariant
            it.seq() == s@,
            v@ == it.seq().take(it.index() as int),
    {
        v.push(c);
    }
    v
}

/// First position of `c` in `v[from..to]`, counted from the start of `v`.
pub fn find_char(v: &Vec<char>, c: char, from: usize, to: usize) -> (r: Option<usize>)
    requires
        from <= to <= v.len(),
    ensures
        r matches Some(i) ==> index_of(v@.subrange(from as int, to as int), c) == Some(i - from),
        r is None ==> index_of(v@.subrange(from as int, to as int), c) is None,
{
    let ghost seg = v@.subrange(from as int, to as int);
    let mut i = from;
    while i < to
        invariant
            from <= i <= to <= v.len(),
            seg == v@.subrange(from as int, to as int),
            forall|j: int| 0 <= j < i - from ==> seg[j] != c,
        decreases to - i,
    {
        if v[i] == c {
            proof {
                lemma_index_of(seg, c, i - from);
            }
            return Some(i);
        }
        i = i + 1;
    }
    proof {
        lemma_index_of(seg, c, seg.len() as int);
    }
    None
}

/// Where the authority of a web address ends, found in one left-to-right
/// scan of `v[from..]`: the first `/` (if any), and the last `:` before it.
pub struct AuthoritySplit {
    pub slash: Option<usize>,
    pub colon: Option<usize>,
}

/// One pass over `v[from..]` in two states: inside the authority, remembering
/// the latest `:`, until the first `/` moves the scan into the path and ends it.
pub fn scan_authority(v: &Vec<char>, from: usize) -> (r: AuthoritySplit)
    requires
        from <= v.len(),
    ensures
        ({
            let seg = v@.subrange(from as int, v.len() as int);
            let end = match r.slash {
                Some(k) => k - from,
                None => seg.len() as int,
            };
            &&& r.slash matches Some(k) ==> index_of(seg, '/') == Some(k - from)
            &&& r.slash is None ==> index_of(seg, '/') is None
            &&& r.colon matches Some(c) ==> from <= c && last_index_of(seg.take(end), ':') == Some(
                c - from,
            )
            &&& r.colon is None ==> last_index_of(seg.take(end), ':') is None
        }),
{
    let ghost seg = v@.subrange(from as int, v.len() as int);
    let mut colon: Option<usize> = None;
    let mut i = from;
    while i < v.len()
        invariant
            from <= i <= v.len(),
            seg == v@.subrange(from as int, v.len() as int),
            forall|j: int| 0 <= j < i - from ==> seg[j] != '/',
            colon matches Some(c) ==> from <= c < i && seg[c - from] == ':' && forall|j: int|
                c - from < j < i - from ==> seg[j] != ':',
            colon is None ==> forall|j: int| 0 <= j < i - from ==> seg[j] != ':',
        decreases v.len() - i,
    {
        if v[i] == '/' {
            proof {
                lemma_index_of(seg, '/', i - from);
                let hp = seg.take(i - from);
                match colon {
                    Some(c) => lemma_last_index_of(hp, ':', c - from),
                    None => lemma_last_index_of(hp, ':', -1),
                }
            }
            return AuthoritySplit { slash: Some(i), colon };
        }
        if v[i] == ':' {
            colon = Some(i);
        }
        i = i + 1;
    }
    proof {
        lemma_index_of(seg, '/', seg.len() as int);
        let hp = seg.take(seg.len() as int);
        assert(hp =~= seg);
        match colon {
            Some(c) => lemma_last_index_of(hp, ':', c - from),
            None => lemma_last_index_of(hp, ':', -1),
        }
    }
    AuthoritySplit { slash: None, colon }
}

/// Whether `v[from..to]` holds exactly the characters of `lit`.
pub fn segment_is(v: &Vec<char>, from: usize, to: usize, lit: &str) -> (r: bool)
    requires
        from <= to <= v.len(),
    ensures
        r == (v@.subrange(from as int, to as int) == lit@),
{
    let n = lit.unicode_len();
    if to - from != n {
        return false;
    }
    let mut i: usize = 0;
    while i < n
        invariant
            n == lit@.len(),
            to - from == n,
            from <= to <= v.len(),
            i <= n,
            forall|j: int| 0 <= j < i ==> v@[from + j] == lit@[j],
        decreases n - i,
    {
        if v[from + i] != lit.get_char(i) {
            assert(v@.subrange(from as int, to as int)[i as int] != lit@[i as int]);
            return false;
        }
        i = i + 1;
    }
    assert(v@.subrange(from as int, to as int) =~= lit@);
    true
}

} // verus!
