//! Text helpers shared by the classifier, the walker and the tree builder.
//!
//! Every text is modelled by its sequence of characters. Case conversion is
//! Unicode-aware and left to the standard library; everything else is
//! computed and proved here.

use vstd::prelude::*;

verus! {

/// `String::push` appends exactly one character to the end of the string.
pub assume_specification[ String::push ](s: &mut String, ch: char)
    ensures
        final(s)@ == old(s)@.push(ch),
;

/// The characters that `char::to_uppercase` yields for `c`, in order. One
/// character may map to several (`'ß'` gives `"SS"`).
pub uninterp spec fn uppercase_of(c: char) -> Seq<char>;

/// The text that `str::to_lowercase` returns for `s`.
pub uninterp spec fn lowercase_of(s: Seq<char>) -> Seq<char>;

/// Calls `char::to_uppercase` and collects what it yields. Trusted: the
/// result is, by definition, `uppercase_of(c)`.
#[verifier::external_body]
fn upper_of(c: char) -> (r: String)
    ensures
        r@ == uppercase_of(c),
{
    c.to_uppercase().collect()
}

/// Calls `str::to_lowercase`. Trusted: the result is, by definition,
/// `lowercase_of(s@)`.
#[verifier::external_body]
pub(crate) fn lower_of(s: &str) -> (r: String)
    ensures
        r@ == lowercase_of(s@),
{
    s.to_lowercase()
}

/// The text with every backslash turned into a forward slash.
pub open spec fn posix(s: Seq<char>) -> Seq<char> {
    Seq::new(s.len(), |i: int| if s[i] == '\\' { '/' } else { s[i] })
}

/// Pascal-casing: the first character is uppercased, the rest is kept as it
/// is. The empty text stays empty.
pub open spec fn pascal_case(s: Seq<char>) -> Seq<char> {
    if s.len() == 0 {
        Seq::empty()
    } else {
        uppercase_of(s[0]) + s.skip(1)
    }
}

/// `pat` occurs in `s` starting at position `i`.
pub open spec fn occurs_at(s: Seq<char>, pat: Seq<char>, i: int) -> bool {
    0 <= i && i + pat.len() <= s.len() && s.subrange(i, i + pat.len()) == pat
}

/// `pat` occurs somewhere in `s`.
pub open spec fn has_infix(s: Seq<char>, pat: Seq<char>) -> bool {
    exists|i: int| occurs_at(s, pat, i)
}

/// `s` ends with `suffix`.
pub open spec fn has_suffix(s: Seq<char>, suffix: Seq<char>) -> bool {
    suffix.len() <= s.len() && s.skip(s.len() - suffix.len()) == suffix
}

/// The parts written one after another with a `/` between neighbours.
pub open spec fn slash_join(parts: Seq<Seq<char>>) -> Seq<char>
    decreases parts.len(),
{
    if parts.len() == 0 {
        Seq::empty()
    } else if parts.len() == 1 {
        parts[0]
    } else {
        slash_join(parts.drop_last()) + seq!['/'] + parts.last()
    }
}

/// The characters of a text, one by one.
pub fn chars_of(s: &str) -> (v: Vec<char>)
    ensures
        v@ == s@,
{
    let mut v: Vec<char> = Vec::new();
    for c in it: s.chars()
        invariant
            it.seq() == s@,
            v@ == s@.take(it.index() as int),
    {
        v.push(c);
    }
    v
}

/// Whether two texts hold the same characters.
pub fn same_text(a: &str, b: &str) -> (eq: bool)
    ensures
        eq == (a@ == b@),
{
    let av = chars_of(a);
    let bv = chars_of(b);
    if av.len() != bv.len() {
        return false;
    }
    let mut i: usize = 0;
    while i < av.len()
        invariant
            i <= av.len(),
            av.len() == bv.len(),
            av@ == a@,
            bv@ == b@,
            forall|k: int| 0 <= k < i ==> av@[k] == bv@[k],
        decreases av.len() - i,
    {
        if av[i] != bv[i] {
            return false;
        }
        i += 1;
    }
    assert(a@ =~= b@);
    true
}

/// Normalizes a path's separators to forward slashes.
pub fn to_posix(p: &str) -> (r: String)
    ensures
        r@ == posix(p@),
{
    let mut out = String::new();
    for c in it: p.chars()
        invariant
            it.seq() == p@,
            out@ == posix(p@.take(it.index() as int)),
    {
        if c == '\\' {
            out.push('/');
        } else {
            out.push(c);
        }
    }
    out
}

/// Puts `upper` in the place of the first character of `s`. With the
/// uppercase form of that character for `upper`, this is pascal-casing.
pub fn capitalize_with(upper: &str, s: &str) -> (r: String)
    ensures
        r@ == if s@.len() == 0 {
            Seq::<char>::empty()
        } else {
            upper@ + s@.skip(1)
        },
{
    let mut out = String::new();
    let mut first = true;
    for c in it: s.chars()
        invariant
            it.seq() == s@,
            first == (it.index() == 0),
            out@ == if it.index() == 0 {
                Seq::<char>::empty()
            } else {
                upper@ + s@.subrange(1, it.index() as int)
            },
    {
        if first {
            out.append(upper);
            first = false;
        } else {
            out.push(c);
        }
    }
    out
}

/// Uppercases the first character of `s` and leaves the rest as it is.
pub fn to_pascal_case(s: &str) -> (r: String)
    ensures
        r@ == pascal_case(s@),
        s@.len() == 0 ==> r@.len() == 0,
        s@.len() > 0 ==> r@ == uppercase_of(s@[0]) + s@.skip(1),
{
    if s.is_empty() {
        return String::new();
    }
    let upper = upper_of(s.get_char(0));
    capitalize_with(upper.as_str(), s)
}

fn matches_at(s: &Vec<char>, pat: &Vec<char>, i: usize) -> (b: bool)
    requires
        i + pat.len() <= s.len(),
    ensures
        b == occurs_at(s@, pat@, i as int),
{
    let mut j: usize = 0;
    while j < pat.len()
        invariant
            j <= pat.len(),
            i + pat.len() <= s.len(),
            forall|k: int| 0 <= k < j ==> s@[i + k] == pat@[k],
        decreases pat.len() - j,
    {
        if s[i + j] != pat[j] {
            assert(s@.subrange(i as int, i + pat.len())[j as int] != pat@[j as int]);
            return false;
        }
        j += 1;
    }
    assert(s@.subrange(i as int, i + pat.len()) =~= pat@);
    true
}

/// Whether `pat` occurs somewhere in `s`.
pub fn contains_text(s: &str, pat: &str) -> (b: bool)
    ensures
        b == has_infix(s@, pat@),
{
    let sv = chars_of(s);
    let pv = chars_of(pat);
    if pv.len() > sv.len() {
        return false;
    }
    let last: usize = sv.len() - pv.len();
    let mut i: usize = 0;
    loop
        invariant
            i <= last,
            last == sv.len() - pv.len(),
            sv@ == s@,
            pv@ == pat@,
            forall|k: int| 0 <= k < i ==> !occurs_at(s@, pat@, k),
        decreases last - i,
    {
        if matches_at(&sv, &pv, i) {
            return true;
        }
        if i == last {
            return false;
        }
        i += 1;
    }
}

/// Whether `s` ends with `suffix`.
pub fn ends_with_text(s: &str, suffix: &str) -> (b: bool)
    ensures
        b == has_suffix(s@, suffix@),
{
    let sv = chars_of(s);
    let pv = chars_of(suffix);
    if pv.len() > sv.len() {
        return false;
    }
    let at: usize = sv.len() - pv.len();
    let b = matches_at(&sv, &pv, at);
    assert(s@.skip(at as int) =~= s@.subrange(at as int, at + pv.len()));
    b
}

/// Joins the first `upto` parts with `/`.
pub fn join_prefix(parts: &Vec<String>, upto: usize) -> (r: String)
    requires
        upto <= parts.len(),
    ensures
        r@ == slash_join(parts.deep_view().take(upto as int)),
{
    let mut out = String::new();
    let mut i: usize = 0;
    while i < upto
        invariant
            i <= upto <= parts.len(),
            out@ == slash_join(parts.deep_view().take(i as int)),
        decreases upto - i,
    {
        let ghost before = parts.deep_view().take(i as int);
        let ghost after = parts.deep_view().take(i + 1);
        assert(after.drop_last() =~= before);
        assert(after.last() == parts[i as int]@);
        if i > 0 {
            out.push('/');
        }
        out.append(parts[i].as_str());
        assert(out@ =~= slash_join(after));
        i += 1;
    }
    out
}

/// Writes `head`, then each of the first `upto` parts behind a `/`.
pub fn join_onto(head: &str, parts: &Vec<String>, upto: usize) -> (r: String)
    requires
        upto <= parts.len(),
    ensures
        r@ == slash_join(seq![head@] + parts.deep_view().take(upto as int)),
{
    let mut out = String::from_str(head);
    let mut i: usize = 0;
    assert(seq![head@] + parts.deep_view().take(0) =~= seq![head@]);
    while i < upto
        invariant
            i <= upto <= parts.len(),
            out@ == slash_join(seq![head@] + parts.deep_view().take(i as int)),
        decreases upto - i,
    {
        let ghost before = seq![head@] + parts.deep_view().take(i as int);
        let ghost after = seq![head@] + parts.deep_view().take(i + 1);
        assert(after.drop_last() =~= before);
        assert(after.last() == parts[i as int]@);
        out.push('/');
        out.append(parts[i].as_str());
        assert(out@ =~= slash_join(after));
        i += 1;
    }
    out
}

/// Joins all the parts with `/`.
pub fn join_with_slash(parts: &Vec<String>) -> (r: String)
    ensures
        r@ == slash_join(parts.deep_view()),
{
    assert(parts.deep_view().take(parts.len() as int) =~= parts.deep_view());
    join_prefix(parts, parts.len())
}

/// The first `n` texts, copied.
pub fn prefix_of(parts: &Vec<String>, n: usize) -> (out: Vec<String>)
    requires
        n <= parts.len(),
    ensures
        out.deep_view() == parts.deep_view().take(n as int),
{
    let mut out: Vec<String> = Vec::new();
    let mut i: usize = 0;
    while i < n
        invariant
            i <= n <= parts.len(),
            out.len() == i,
            forall|k: int| 0 <= k < i ==> out[k]@ == parts[k]@,
        decreases n - i,
    {
        out.push(parts[i].clone());
        i += 1;
    }
    assert(out.deep_view() =~= parts.deep_view().take(n as int));
    out
}

/// The key path of `name` below the folder chain, copied.
pub fn key_below(folders: &Vec<String>, name: &String) -> (out: Vec<String>)
    ensures
        out.deep_view() == folders.deep_view().push(name@),
{
    let mut out = prefix_of(folders, folders.len());
    let ghost before = out.deep_view();
    out.push(name.clone());
    assert(folders.deep_view().take(folders.len() as int) =~= folders.deep_view());
    assert(out.deep_view() =~= before.push(name@));
    out
}

} // verus!
