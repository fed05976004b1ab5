//! Text helpers: the order of strings, decimal rendering and debug quoting.
use vstd::prelude::*;
use vstd::string::*;

verus! {

/// Strict lexicographic order of two char sequences by code point.
///
/// Code point order of chars coincides with the byte order of their UTF-8
/// encoding, so this is the order `String` sorts by.
pub open spec fn seq_before(a: Seq<char>, b: Seq<char>) -> bool
    decreases a.len(),
{
    if a.len() == 0 {
        b.len() > 0
    } else if b.len() == 0 {
        false
    } else if a[0] != b[0] {
        (a[0] as int) < (b[0] as int)
    } else {
        seq_before(a.drop_first(), b.drop_first())
    }
}

pub proof fn lemma_before_irreflexive(a: Seq<char>)
    ensures
        !seq_before(a, a),
    decreases a.len(),
{
    if a.len() > 0 {
        lemma_before_irreflexive(a.drop_first());
    }
}

pub proof fn lemma_before_asymmetric(a: Seq<char>, b: Seq<char>)
    ensures
        seq_before(a, b) ==> !seq_before(b, a),
    decreases a.len(),
{
    if a.len() > 0 && b.len() > 0 && a[0] == b[0] {
        lemma_before_asymmetric(a.drop_first(), b.drop_first());
    }
}

pub proof fn lemma_before_transitive(a: Seq<char>, b: Seq<char>, c: Seq<char>)
    requires
        seq_before(a, b),
        seq_before(b, c),
    ensures
        seq_before(a, c),
    decreases a.len(),
{
    if a.len() > 0 && b.len() > 0 && c.len() > 0 && a[0] == b[0] && b[0] == c[0] {
        lemma_before_transitive(a.drop_first(), b.drop_first(), c.drop_first());
    }
}

pub proof fn lemma_before_total(a: Seq<char>, b: Seq<char>)
    ensures
        a != b ==> seq_before(a, b) || seq_before(b, a),
    decreases a.len(),
{
    if a.len() > 0 && b.len() > 0 {
        if a[0] == b[0] {
            lemma_before_total(a.drop_first(), b.drop_first());
            if a.drop_first() == b.drop_first() {
                assert(a =~= seq![a[0]] + a.drop_first());
                assert(b =~= seq![b[0]] + b.drop_first());
            }
        } else {
            assert((a[0] as int) != (b[0] as int));
        }
    } else if a.len() == 0 && b.len() == 0 {
        assert(a =~= b);
    }
}

/// `a` sorts strictly before `b`.
pub fn str_before(a: &str, b: &str) -> (r: bool)
    ensures
        r == seq_before(a@, b@),
{
    let la = a.unicode_len();
    let lb = b.unicode_len();
    let mut i: usize = 0;
    assert(a@.skip(0) =~= a@);
    assert(b@.skip(0) =~= b@);
    while i < la && i < lb
        invariant
            la == a@.len(),
            lb == b@.len(),
            i <= la,
            i <= lb,
            seq_before(a@, b@) == seq_before(a@.skip(i as int), b@.skip(i as int)),
        decreases la - i,
    {
        let ca = a.get_char(i);
        let cb = b.get_char(i);
        if ca != cb {
            return (ca as u32) < (cb as u32);
        }
        assert(a@.skip(i as int).drop_first() =~= a@.skip(i + 1));
        assert(b@.skip(i as int).drop_first() =~= b@.skip(i + 1));
        i = i + 1;
    }
    i < lb
}

/// The two strings hold the same chars.
pub fn str_same(a: &str, b: &str) -> (r: bool)
    ensures
        r == (a@ == b@),
{
    let x = a.to_owned();
    let y = b.to_owned();
    x == y
}

/// An owned copy of `s`.
pub fn owned(s: &str) -> (r: String)
    ensures
        r@ == s@,
{
    s.to_owned()
}

/// The decimal digit for `d < 10`.
pub open spec fn digit_char(d: nat) -> char {
    if d == 0 { '0' }
    else if d == 1 { '1' }
    else if d == 2 { '2' }
    else if d == 3 { '3' }
    else if d == 4 { '4' }
    else if d == 5 { '5' }
    else if d == 6 { '6' }
    else if d == 7 { '7' }
    else if d == 8 { '8' }
    else { '9' }
}

/// The decimal text of `n`, as `Display` prints an unsigned integer.
pub open spec fn dec_text(n: nat) -> Seq<char>
    decreases n,
{
    if n < 10 {
        seq![digit_char(n)]
    } else {
        dec_text(n / 10).push(digit_char(n % 10))
    }
}

/// Appends one char (`String::push`).
#[verifier::external_body]
pub(crate) fn push_char(s: &mut String, c: char)
    ensures
        final(s)@ == old(s)@.push(c),
{
    s.push(c);
}

fn digit_of(d: u128) -> (c: char)
    requires
        d < 10,
    ensures
        c == digit_char(d as nat),
{
    if d == 0 { '0' }
    else if d == 1 { '1' }
    else if d == 2 { '2' }
    else if d == 3 { '3' }
    else if d == 4 { '4' }
    else if d == 5 { '5' }
    else if d == 6 { '6' }
    else if d == 7 { '7' }
    else if d == 8 { '8' }
    else { '9' }
}

/// The decimal text of `n`.
pub fn num_text(n: u128) -> (r: String)
    ensures
        r@ == dec_text(n as nat),
    decreases n,
{
    if n < 10 {
        let mut s = String::new();
        push_char(&mut s, digit_of(n));
        assert(s@ =~= seq![digit_char(n as nat)]);
        s
    } else {
        let mut s = num_text(n / 10);
        push_char(&mut s, digit_of(n % 10));
        s
    }
}

/// What `format!("{:?}", s)` gives for a string: its quoted, escaped form.
pub uninterp spec fn debug_text(s: Seq<char>) -> Seq<char>;

/// The `Debug` form of a string (`format!("{:?}")`).
#[verifier::external_body]
pub(crate) fn debug_str(s: &str) -> (r: String)
    ensures
        r@ == debug_text(s@),
{
    format!("{:?}", s)
}

/// The items' debug forms joined by `", "`.
pub open spec fn debug_items(xs: Seq<Seq<char>>) -> Seq<char>
    decreases xs.len(),
{
    if xs.len() == 0 {
        Seq::empty()
    } else if xs.len() == 1 {
        debug_text(xs[0])
    } else {
        debug_items(xs.drop_last()) + ", "@ + debug_text(xs.last())
    }
}

/// The `Debug` form of a list of strings: `["a", "b"]`.
pub open spec fn debug_list(xs: Seq<Seq<char>>) -> Seq<char> {
    "["@ + debug_items(xs) + "]"@
}

pub open spec fn views(xs: Seq<String>) -> Seq<Seq<char>> {
    xs.map_values(|s: String| s@)
}

/// The `Debug` form of a list of strings (`format!("{:?}", xs)`).
pub fn debug_strings(xs: &Vec<String>) -> (r: String)
    ensures
        r@ == debug_list(views(xs@)),
{
    let mut out = String::new();
    out.append("[");
    let mut i: usize = 0;
    while i < xs.len()
        invariant
            i <= xs.len(),
            out@ == "["@ + debug_items(views(xs@).take(i as int)),
        decreases xs.len() - i,
    {
        let ghost before = views(xs@).take(i as int);
        if i > 0 {
            out.append(", ");
        }
        let d = debug_str(xs[i].as_str());
        out.append(d.as_str());
        proof {
            let now = views(xs@).take(i + 1);
            assert(now.drop_last() =~= before);
            assert(now.last() == xs@[i as int]@);
            if i == 0 {
                assert(before =~= Seq::<Seq<char>>::empty());
                assert(out@ =~= "["@ + debug_items(now));
            } else {
                assert(out@ =~= "["@ + debug_items(now));
            }
        }
        i = i + 1;
    }
    assert(views(xs@).take(xs.len() as int) =~= views(xs@));
    out.append("]");
    out
}


/// `char::is_whitespace`: the Unicode `White_Space` property.
pub open spec fn white_space(c: char) -> bool {
    ('\u{9}' <= c <= '\u{d}') || c == ' ' || c == '\u{85}' || c == '\u{a0}' || c == '\u{1680}'
        || ('\u{2000}' <= c <= '\u{200a}') || c == '\u{2028}' || c == '\u{2029}' || c == '\u{202f}'
        || c == '\u{205f}' || c == '\u{3000}'
}

/// Only white space (`str::trim` leaves it empty).
pub open spec fn blank_spec(s: Seq<char>) -> bool {
    forall|i: int| 0 <= i < s.len() ==> white_space(#[trigger] s[i])
}

pub fn is_space(c: char) -> (r: bool)
    ensures
        r == white_space(c),
{
    ('\u{9}' <= c && c <= '\u{d}') || c == ' ' || c == '\u{85}' || c == '\u{a0}' || c == '\u{1680}'
        || ('\u{2000}' <= c && c <= '\u{200a}') || c == '\u{2028}' || c == '\u{2029}' || c == '\u{202f}'
        || c == '\u{205f}' || c == '\u{3000}'
}

/// Only white space.
pub fn blank(s: &str) -> (r: bool)
    ensures
        r == blank_spec(s@),
{
    let n = s.unicode_len();
    let mut i: usize = 0;
    while i < n
        invariant
            i <= n,
            n == s@.len(),
            forall|j: int| 0 <= j < i ==> white_space(#[trigger] s@[j]),
        decreases n - i,
    {
        if !is_space(s.get_char(i)) {
            return false;
        }
        i = i + 1;
    }
    true
}

} // verus!
