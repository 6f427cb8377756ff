//! Character-level helpers shared by the other modules: strings as
//! character vectors and back, comparison, splitting at `/`, decimal
//! rendering of integers, and UTF-8 decoding.

use vstd::prelude::*;
use vstd::utf8::*;

verus! {

/// Appends one character to a `String` (`String::push`).
#[verifier::external_body]
pub(crate) fn push_char(s: &mut String, c: char)
    ensures
        final(s)@ == old(s)@.push(c),
{
    s.push(c);
}

/// The characters of `s`, in order.
pub fn chars_of(s: &str) -> (v: Vec<char>)
    ensures
        v@ == s@,
{
    let mut v: Vec<char> = Vec::new();
    for c in it: s.chars()
        invariant
            v@ == it.seq().take(it.index() as int),
    {
        v.push(c);
    }
    v
}

/// The character of a decimal digit `d < 10`.
pub open spec fn digit_char(d: nat) -> char {
    (48 + d) as char
}

/// The decimal representation of `n`, most significant digit first, with no
/// leading zeros (`0` is rendered as a single `'0'`).
pub open spec fn decimal(n: nat) -> Seq<char>
    decreases n,
{
    if n < 10 {
        seq![digit_char(n)]
    } else {
        decimal(n / 10).push(digit_char(n % 10))
    }
}

/// Appends the decimal representation of `n` to `s`.
pub fn push_decimal(s: &mut String, n: u64)
    ensures
        final(s)@ == old(s)@ + decimal(n as nat),
    decreases n,
{
    if n >= 10 {
        push_decimal(s, n / 10);
    }
    let d: u8 = (n % 10) as u8;
    let c: char = (48u8 + d) as char;
    push_char(s, c);
}

/// A `String` holding the characters of `v`.
pub fn string_of(v: &[char]) -> (s: String)
    ensures
        s@ == v@,
{
    let mut s = String::new();
    for i in 0..v.len()
        invariant
            s@ == v@.take(i as int),
    {
        push_char(&mut s, v[i]);
        assert(v@.take(i + 1) =~= v@.take(i as int).push(v@[i as int]));
    }
    assert(v@.take(v@.len() as int) =~= v@);
    s
}

/// What `String::from_utf8_lossy` makes of a byte string: its UTF-8
/// decoding, with each maximal invalid sequence replaced by U+FFFD.
pub uninterp spec fn utf8_lossy(bytes: Seq<u8>) -> Seq<char>;

/// Decodes `bytes` as UTF-8, replacing invalid sequences
/// (`String::from_utf8_lossy`). The contract names the result and states the
/// documented fact that valid UTF-8 is decoded unchanged; the replacement
/// rule for invalid input is left to the name.
#[verifier::external_body]
pub(crate) fn decode_utf8_lossy(bytes: &[u8]) -> (s: String)
    ensures
        s@ == utf8_lossy(bytes@),
        valid_utf8(bytes@) ==> s@ == decode_utf8(bytes@),
{
    String::from_utf8_lossy(bytes).into_owned()
}

/// Appends `v[start..end]` to `s`.
pub fn push_chars(s: &mut String, v: &[char], start: usize, end: usize)
    requires
        start <= end <= v.len(),
    ensures
        final(s)@ == old(s)@ + v@.subrange(start as int, end as int),
{
    let mut i = start;
    while i < end
        invariant
            start <= i <= end <= v.len(),
            s@ == old(s)@ + v@.subrange(start as int, i as int),
        decreases end - i,
    {
        push_char(s, v[i]);
        assert(v@.subrange(start as int, i + 1) =~= v@.subrange(start as int, i as int).push(
            v@[i as int],
        ));
        i = i + 1;
    }
}

/// What `format!("{:?}", s)` writes for a string: `s` in double quotes, with
/// quotes, backslashes and control or non-printable characters escaped.
pub uninterp spec fn str_debug(s: Seq<char>) -> Seq<char>;

/// The `Debug` rendering of a string (`<str as Debug>::fmt`). Its escaping
/// rules are left to the name; the contract states only that the rendering is
/// quoted.
#[verifier::external_body]
pub(crate) fn debug_str(s: &str) -> (r: String)
    ensures
        r@ == str_debug(s@),
        r@.len() >= 2 && r@[0] == '"' && r@.last() == '"',
{
    format!("{:?}", s)
}

/// Whether two strings hold the same characters.
pub fn str_eq(a: &str, b: &str) -> (r: bool)
    ensures
        r == (a@ == b@),
{
    let x = chars_of(a);
    let y = chars_of(b);
    if x.len() != y.len() {
        return false;
    }
    for i in 0..x.len()
        invariant
            x@ == a@,
            y@ == b@,
            x@.len() == y@.len(),
            forall|j: int| 0 <= j < i ==> x@[j] == y@[j],
    {
        if x[i] != y[i] {
            return false;
        }
    }
    assert(x@ =~= y@);
    true
}

/// The parts of `s` between `/` separators, as `str::split('/')` yields them:
/// one more part than there are separators, empty parts included.
pub open spec fn split_slash(s: Seq<char>) -> Seq<Seq<char>>
    decreases s.len(),
{
    if s.len() == 0 {
        seq![Seq::<char>::empty()]
    } else {
        let p = split_slash(s.drop_last());
        if s.last() == '/' {
            p.push(Seq::empty())
        } else {
            p.update(p.len() - 1, p.last().push(s.last()))
        }
    }
}

pub proof fn lemma_split_slash_nonempty(s: Seq<char>)
    ensures
        split_slash(s).len() >= 1,
    decreases s.len(),
{
    if s.len() > 0 {
        lemma_split_slash_nonempty(s.drop_last());
    }
}

pub open spec fn views_of(v: Seq<Vec<char>>) -> Seq<Seq<char>> {
    v.map_values(|x: Vec<char>| x@)
}

/// `s` holds no `/`.
pub open spec fn no_slash(s: Seq<char>) -> bool {
    forall|i: int| 0 <= i < s.len() ==> s[i] != '/'
}

pub proof fn lemma_split_no_slash(s: Seq<char>)
    requires
        no_slash(s),
    ensures
        split_slash(s) == seq![s],
    decreases s.len(),
{
    if s.len() > 0 {
        lemma_split_no_slash(s.drop_last());
        assert(s.drop_last().push(s.last()) =~= s);
    } else {
        assert(s =~= Seq::<char>::empty());
    }
}

pub proof fn lemma_split_concat(a: Seq<char>, b: Seq<char>)
    ensures
        split_slash(a + seq!['/'] + b) == split_slash(a) + split_slash(b),
    decreases b.len(),
{
    lemma_split_slash_nonempty(a);
    if b.len() == 0 {
        assert((a + seq!['/'] + b).drop_last() =~= a);
        assert(split_slash(a).push(Seq::<char>::empty()) =~= split_slash(a) + split_slash(b));
    } else {
        let s = a + seq!['/'] + b;
        assert(s.drop_last() =~= a + seq!['/'] + b.drop_last());
        lemma_split_concat(a, b.drop_last());
        lemma_split_slash_nonempty(b.drop_last());
        let pa = split_slash(a);
        let pb = split_slash(b.drop_last());
        if b.last() == '/' {
            assert(split_slash(s) =~= pa + pb.push(Seq::<char>::empty()));
        } else {
            assert(split_slash(s) =~= pa + pb.update(pb.len() - 1, pb.last().push(b.last())));
        }
    }
}

/// The parts of `s` between `/` separators (`str::split('/')`).
pub fn split_parts(s: &str) -> (parts: Vec<Vec<char>>)
    ensures
        views_of(parts@) == split_slash(s@),
{
    let v = chars_of(s);
    let mut done: Vec<Vec<char>> = Vec::new();
    let mut cur: Vec<char> = Vec::new();
    assert(v@.take(0) =~= Seq::<char>::empty());
    assert(views_of(done@).push(cur@) =~= seq![Seq::<char>::empty()]);
    for i in 0..v.len()
        invariant
            v@ == s@,
            split_slash(v@.take(i as int)) == views_of(done@).push(cur@),
    {
        let c = v[i];
        assert(v@.take(i + 1).drop_last() =~= v@.take(i as int));
        if c == '/' {
            let ghost old_done = done@;
            let finished = cur;
            done.push(finished);
            cur = Vec::new();
            assert(views_of(done@) =~= views_of(old_done).push(finished@));
        } else {
            cur.push(c);
        }
        assert(split_slash(v@.take(i + 1)) =~= views_of(done@).push(cur@));
    }
    assert(v@.take(v@.len() as int) =~= v@);
    let ghost old_done = done@;
    done.push(cur);
    assert(views_of(done@) =~= views_of(old_done).push(cur@));
    done
}

} // verus!
