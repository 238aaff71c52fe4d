//! Character-level helpers: Unicode white space, trimming, and the
//! conversions between strings and character vectors.
use vstd::prelude::*;
use vstd::std_specs::iter::IteratorSpec;
use vstd::string::StrSliceExecFns;

verus! {

/// The Unicode `White_Space` property, which `char::is_whitespace` and
/// `str::trim` go by.
pub open spec fn is_space(c: char) -> bool {
    let u = c as u32;
    (0x09 <= u && u <= 0x0D) || u == 0x20 || u == 0x85 || u == 0xA0 || u == 0x1680 || (0x2000
        <= u && u <= 0x200A) || u == 0x2028 || u == 0x2029 || u == 0x202F || u == 0x205F || u
        == 0x3000
}

/// Whether `c` is a Unicode white-space character.
pub fn is_whitespace(c: char) -> (r: bool)
    ensures
        r == is_space(c),
{
    let u = c as u32;
    (0x09 <= u && u <= 0x0D) || u == 0x20 || u == 0x85 || u == 0xA0 || u == 0x1680 || (0x2000
        <= u && u <= 0x200A) || u == 0x2028 || u == 0x2029 || u == 0x202F || u == 0x205F || u
        == 0x3000
}

/// `s` without its leading white space.
pub open spec fn trim_start(s: Seq<char>) -> Seq<char>
    decreases s.len(),
{
    if s.len() > 0 && is_space(s[0]) {
        trim_start(s.drop_first())
    } else {
        s
    }
}

/// `s` without its trailing white space.
pub open spec fn trim_end(s: Seq<char>) -> Seq<char>
    decreases s.len(),
{
    if s.len() > 0 && is_space(s.last()) {
        trim_end(s.drop_last())
    } else {
        s
    }
}

/// `s` without leading and trailing white space.
pub open spec fn trimmed(s: Seq<char>) -> Seq<char> {
    trim_end(trim_start(s))
}

/// Trimming the start leaves a suffix that begins with a non-space, and
/// keeps a non-space last character.
pub proof fn lemma_trim_start_suffix(s: Seq<char>)
    ensures
        trim_start(s).len() <= s.len(),
        trim_start(s) == s.subrange(s.len() - trim_start(s).len(), s.len() as int),
        trim_start(s).len() > 0 ==> !is_space(trim_start(s)[0]),
        s.len() > 0 && !is_space(s.last()) ==> trim_start(s).len() > 0,
    decreases s.len(),
{
    if s.len() > 0 && is_space(s[0]) {
        lemma_trim_start_suffix(s.drop_first());
        assert(trim_start(s) == s.subrange(s.len() - trim_start(s).len(), s.len() as int));
    } else {
        assert(s == s.subrange(0, s.len() as int));
    }
}

/// Trimming the end leaves a prefix that ends with a non-space, and keeps a
/// non-space first character.
pub proof fn lemma_trim_end_prefix(s: Seq<char>)
    ensures
        trim_end(s).len() <= s.len(),
        trim_end(s) == s.subrange(0, trim_end(s).len() as int),
        trim_end(s).len() > 0 ==> !is_space(trim_end(s).last()),
        s.len() > 0 && !is_space(s[0]) ==> trim_end(s).len() > 0,
    decreases s.len(),
{
    if s.len() > 0 && is_space(s.last()) {
        lemma_trim_end_prefix(s.drop_last());
        assert(trim_end(s) == s.subrange(0, trim_end(s).len() as int));
    } else {
        assert(s == s.subrange(0, s.len() as int));
    }
}

/// Trimmed text begins and ends with a non-space, and is empty only when the
/// whole text is white space.
pub proof fn lemma_trimmed_shape(s: Seq<char>)
    ensures
        trimmed(s).len() <= s.len(),
        trimmed(s).len() > 0 ==> !is_space(trimmed(s)[0]) && !is_space(trimmed(s).last()),
        s.len() > 0 && (!is_space(s[0]) || !is_space(s.last())) ==> trimmed(s).len() > 0,
{
    let u = trim_start(s);
    lemma_trim_start_suffix(s);
    lemma_trim_end_prefix(u);
    if trimmed(s).len() > 0 {
        assert(trimmed(s)[0] == u[0]);
    }
    if s.len() > 0 && !is_space(s.last()) {
        assert(u.last() == s.last());
    }
}

/// Text with a character that is not white space keeps something after
/// trimming.
pub proof fn lemma_trimmed_keeps_non_space(s: Seq<char>, i: int)
    requires
        0 <= i < s.len(),
        !is_space(s[i]),
    ensures
        trimmed(s).len() > 0,
    decreases s.len(),
{
    if is_space(s[0]) {
        lemma_trimmed_keeps_non_space(s.drop_first(), i - 1);
        lemma_trim_start_suffix(s.drop_first());
        lemma_trim_end_prefix(trim_start(s));
    } else {
        lemma_trim_end_prefix(s);
    }
}

/// Trimming is idempotent.
pub proof fn lemma_trimmed_idempotent(s: Seq<char>)
    ensures
        trimmed(trimmed(s)) == trimmed(s),
{
    let t = trimmed(s);
    lemma_trimmed_shape(s);
    if t.len() > 0 {
        assert(trim_start(t) == t);
        assert(trim_end(t) == t);
    } else {
        assert(trim_start(t) == t);
        assert(trim_end(t) == t);
    }
}

/// Bounds of the trimmed part of `cs[from..to]`.
pub fn trim_range(cs: &[char], from: usize, to: usize) -> (r: (usize, usize))
    requires
        from <= to <= cs@.len(),
    ensures
        from <= r.0 <= r.1 <= to,
        cs@.subrange(r.0 as int, r.1 as int) == trimmed(cs@.subrange(from as int, to as int)),
{
    let mut lo = from;
    while lo < to && is_whitespace(cs[lo])
        invariant
            from <= lo <= to <= cs@.len(),
            trim_start(cs@.subrange(from as int, to as int)) == trim_start(
                cs@.subrange(lo as int, to as int),
            ),
        decreases to - lo,
    {
        assert(cs@.subrange(lo as int, to as int).drop_first() =~= cs@.subrange(
            lo + 1,
            to as int,
        ));
        lo = lo + 1;
    }
    let mut hi = to;
    while hi > lo && is_whitespace(cs[hi - 1])
        invariant
            from <= lo <= hi <= to <= cs@.len(),
            trim_start(cs@.subrange(from as int, to as int)) == cs@.subrange(lo as int, to as int),
            trim_end(cs@.subrange(lo as int, to as int)) == trim_end(
                cs@.subrange(lo as int, hi as int),
            ),
        decreases hi - lo,
    {
        assert(cs@.subrange(lo as int, hi as int).drop_last() =~= cs@.subrange(
            lo as int,
            hi - 1,
        ));
        hi = hi - 1;
    }
    (lo, hi)
}

/// Whether two strings are equal.
pub fn str_eq(a: &str, b: &str) -> (r: bool)
    ensures
        r == (a@ == b@),
{
    let n = a.unicode_len();
    if n != b.unicode_len() {
        return false;
    }
    let mut i: usize = 0;
    while i < n
        invariant
            n == a@.len() == b@.len(),
            i <= n,
            forall|j: int| 0 <= j < i ==> a@[j] == b@[j],
        decreases n - i,
    {
        if a.get_char(i) != b.get_char(i) {
            return false;
        }
        i = i + 1;
    }
    assert(a@ =~= b@);
    true
}

/// The characters of `s`, in order.
pub(crate) fn chars_of(s: &str) -> (r: Vec<char>)
    ensures
        r@ == s@,
{
    broadcast use vstd::string::axiom_spec_iter, vstd::string::next_postcondition;

    let mut it = s.chars();
    let mut out: Vec<char> = Vec::new();
    loop
        invariant
            out@ + it.remaining() == s@,
            it.decrease() is Some,
        ensures
            out@ == s@,
        decreases it.decrease()->0,
    {
        match it.next() {
            Some(c) => {
                out.push(c);
                assert(out@ + it.remaining() =~= s@);
            },
            None => {
                assert(out@ =~= s@);
                break ;
            },
        }
    }
    out
}

/// Relies on `String: FromIterator<char>`: a string of exactly these characters.
#[verifier::external_body]
pub(crate) fn string_of(cs: &[char]) -> (r: String)
    ensures
        r@ == cs@,
{
    cs.iter().collect()
}

} // verus!
