//! Text-level operations on URLs: fragment removal, root-relative expansion
//! and the last path segment.
use vstd::prelude::*;

verus! {

/// `k` is where the fragment of `s` starts: the index of its first `#`, or its
/// length when it has none.
pub open spec fn is_fragment_start(s: Seq<char>, k: int) -> bool {
    &&& 0 <= k <= s.len()
    &&& forall|i: int| 0 <= i < k ==> s[i] != '#'
    &&& k < s.len() ==> s[k] == '#'
}

/// `s` with everything from its first `#` onward removed.
pub open spec fn strip_fragment(s: Seq<char>) -> Seq<char> {
    s.take(choose|k: int| is_fragment_start(s, k))
}

/// A string that starts with `/`.
pub open spec fn is_root_relative(s: Seq<char>) -> bool {
    s.len() > 0 && s[0] == '/'
}

/// The canonical form of the link `url` found on a site whose origin is `origin`.
pub open spec fn normalized(url: Seq<char>, origin: Seq<char>) -> Seq<char> {
    let s = strip_fragment(url);
    if is_root_relative(s) {
        origin + s
    } else {
        s
    }
}

/// There is exactly one fragment start, so `strip_fragment` is the prefix up to it.
pub proof fn lemma_fragment_start(s: Seq<char>, k: int)
    requires
        is_fragment_start(s, k),
    ensures
        strip_fragment(s) == s.take(k),
{
    let j = choose|j: int| is_fragment_start(s, j);
    assert(is_fragment_start(s, j));
    if j < k {
        assert(s[j] != '#');
    } else if k < j {
        assert(s[k] != '#');
    }
}

/// Canonicalizes a link: drops its fragment and, where what is left starts with
/// `/`, puts the origin in front of it.
pub fn normalize_url(url: &str, origin: &str) -> (r: String)
    ensures
        r@ == normalized(url@, origin@),
{
    let n = url.unicode_len();
    let mut k: usize = 0;
    let mut hit = false;
    while !hit && k < n
        invariant
            n == url@.len(),
            k <= n,
            forall|i: int| 0 <= i < k ==> url@[i] != '#',
            hit ==> k < n && url@[k as int] == '#',
        decreases n - k + if hit { 0int } else { 1int },
    {
        if url.get_char(k) == '#' {
            hit = true;
        } else {
            k = k + 1;
        }
    }
    proof {
        lemma_fragment_start(url@, k as int);
    }
    let stripped = url.substring_char(0, k);
    if k > 0 && stripped.get_char(0) == '/' {
        let mut r = origin.to_owned();
        r.append(stripped);
        r
    } else {
        stripped.to_owned()
    }
}

/// Every string has a fragment start.
pub proof fn lemma_fragment_start_exists(s: Seq<char>) -> (k: int)
    ensures
        is_fragment_start(s, k),
    decreases s.len(),
{
    if s.len() == 0 || s[0] == '#' {
        0
    } else {
        let j = lemma_fragment_start_exists(s.drop_first());
        assert forall|i: int| 0 <= i < j + 1 implies s[i] != '#' by {
            if i > 0 {
                assert(s[i] == s.drop_first()[i - 1]);
            }
        }
        j + 1
    }
}

/// Erasing a fragment: whatever follows a `#` added to a link does not change
/// what the link normalizes to.
pub proof fn lemma_fragment_erased(url: Seq<char>, fragment: Seq<char>, origin: Seq<char>)
    ensures
        normalized(url + seq!['#'] + fragment, origin) == normalized(url, origin),
{
    let k = lemma_fragment_start_exists(url);
    let t = url + seq!['#'] + fragment;
    assert(is_fragment_start(t, k));
    lemma_fragment_start(url, k);
    lemma_fragment_start(t, k);
    assert(t.take(k) =~= url.take(k));
}

/// A string without `#` is its own fragment-free form.
pub proof fn lemma_no_fragment(s: Seq<char>)
    requires
        forall|i: int| 0 <= i < s.len() ==> s[i] != '#',
    ensures
        strip_fragment(s) == s,
{
    lemma_fragment_start(s, s.len() as int);
    assert(s.take(s.len() as int) =~= s);
}

/// Normalizing is idempotent: a normalized link normalizes to itself, for an
/// origin that holds no `#` and does not itself start with `/`.
pub proof fn lemma_normalize_idempotent(url: Seq<char>, origin: Seq<char>)
    requires
        forall|i: int| 0 <= i < origin.len() ==> origin[i] != '#',
        !is_root_relative(origin),
    ensures
        normalized(normalized(url, origin), origin) == normalized(url, origin),
{
    let k = lemma_fragment_start_exists(url);
    lemma_fragment_start(url, k);
    let s = url.take(k);
    assert forall|i: int| 0 <= i < s.len() implies s[i] != '#' by {}
    let n = normalized(url, origin);
    if is_root_relative(s) {
        assert(n == origin + s);
        assert forall|i: int| 0 <= i < n.len() implies n[i] != '#' by {
            if i >= origin.len() {
                assert(n[i] == s[i - origin.len()]);
            }
        }
        lemma_no_fragment(n);
        if origin.len() == 0 {
            assert(origin + n =~= n);
        } else {
            assert(n[0] == origin[0]);
        }
    } else {
        lemma_no_fragment(s);
    }
}

/// `k` is where the last `/`-delimited segment of `s` starts.
pub open spec fn is_segment_start(s: Seq<char>, k: int) -> bool {
    &&& 0 <= k <= s.len()
    &&& forall|i: int| k <= i < s.len() ==> s[i] != '/'
    &&& k > 0 ==> s[k - 1] == '/'
}

/// What follows the last `/` of `s`; all of `s` where it has none.
pub open spec fn last_segment(s: Seq<char>) -> Seq<char> {
    s.skip(choose|k: int| is_segment_start(s, k))
}

/// There is exactly one segment start, so `last_segment` is the suffix from it.
pub proof fn lemma_segment_start(s: Seq<char>, k: int)
    requires
        is_segment_start(s, k),
    ensures
        last_segment(s) == s.skip(k),
{
    let j = choose|j: int| is_segment_start(s, j);
    assert(is_segment_start(s, j));
    if j < k {
        assert(s[k - 1] != '/');
    } else if k < j {
        assert(s[j - 1] != '/');
    }
}

/// The name under which an artifact found at `url` is stored: the last
/// `/`-delimited segment of the URL.
pub fn artifact_file_name(url: &str) -> (r: String)
    ensures
        r@ == last_segment(url@),
{
    let n = url.unicode_len();
    let mut k: usize = n;
    let mut hit = false;
    while !hit && k > 0
        invariant
            n == url@.len(),
            k <= n,
            forall|i: int| k <= i < n ==> url@[i] != '/',
            hit ==> k > 0 && url@[k - 1] == '/',
        decreases k + if hit { 0int } else { 1int },
    {
        if url.get_char(k - 1) == '/' {
            hit = true;
        } else {
            k = k - 1;
        }
    }
    proof {
        lemma_segment_start(url@, k as int);
    }
    url.substring_char(k, n).to_owned()
}

} // verus!
