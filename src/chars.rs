//! Conversions between strings and character vectors, and character classes
//! shared by the cleaning passes.
use vstd::prelude::*;
use vstd::std_specs::iter::IteratorSpec;

verus! {

/// The characters of a string, in order.
pub(crate) fn chars_of(s: &str) -> (r: Vec<char>)
    ensures
        r@ == s@,
{
    broadcast use vstd::string::axiom_spec_iter, vstd::string::next_postcondition;

    let mut it = s.chars();
    let mut v: Vec<char> = Vec::new();
    loop
        invariant
            v@ + it.remaining() == s@,
            it.decrease() is Some,
        ensures
            v@ == s@,
        decreases it.decrease()->0,
    {
        let ghost before = it.remaining();
        match it.next() {
            Some(c) => {
                assert(v@.push(c) + it.remaining() =~= v@ + before);
                v.push(c);
            },
            None => {
                assert(v@ =~= s@);
                break;
            },
        }
    }
    v
}

/// Relies on `FromIterator<&char> for String`: a string holding these characters, in order.
#[verifier::external_body]
pub(crate) fn string_of(v: &Vec<char>) -> (r: String)
    ensures
        r@ == v@,
{
    v.iter().collect()
}

/// Unicode `White_Space` (what `char::is_whitespace` and the `\s` class accept).
pub open spec fn is_space(c: char) -> bool {
    let u = c as u32;
    (9 <= u && u <= 13) || u == 32 || u == 0x85 || u == 0xA0 || u == 0x1680
        || (0x2000 <= u && u <= 0x200A) || u == 0x2028 || u == 0x2029 || u == 0x202F
        || u == 0x205F || u == 0x3000
}

/// Whether `c` is whitespace.
pub fn is_space_exec(c: char) -> (r: bool)
    ensures
        r == is_space(c),
{
    let u = c as u32;
    (9 <= u && u <= 13) || u == 32 || u == 0x85 || u == 0xA0 || u == 0x1680
        || (0x2000 <= u && u <= 0x200A) || u == 0x2028 || u == 0x2029 || u == 0x202F
        || u == 0x205F || u == 0x3000
}

/// A Unicode decimal digit (general category `Nd`, what the `\d` class
/// of regular expressions accepts): the characters of these ranges of code points.
pub open spec fn is_digit(c: char) -> bool {
    let u = c as u32;
    (0x30 <= u && u <= 0x39) || (0x660 <= u && u <= 0x669) || (0x6F0 <= u && u <= 0x6F9) ||
        (0x7C0 <= u && u <= 0x7C9) || (0x966 <= u && u <= 0x96F) ||
        (0x9E6 <= u && u <= 0x9EF) || (0xA66 <= u && u <= 0xA6F) ||
        (0xAE6 <= u && u <= 0xAEF) || (0xB66 <= u && u <= 0xB6F) ||
        (0xBE6 <= u && u <= 0xBEF) || (0xC66 <= u && u <= 0xC6F) ||
        (0xCE6 <= u && u <= 0xCEF) || (0xD66 <= u && u <= 0xD6F) ||
        (0xDE6 <= u && u <= 0xDEF) || (0xE50 <= u && u <= 0xE59) ||
        (0xED0 <= u && u <= 0xED9) || (0xF20 <= u && u <= 0xF29) ||
        (0x1040 <= u && u <= 0x1049) || (0x1090 <= u && u <= 0x1099) ||
        (0x17E0 <= u && u <= 0x17E9) || (0x1810 <= u && u <= 0x1819) ||
        (0x1946 <= u && u <= 0x194F) || (0x19D0 <= u && u <= 0x19D9) ||
        (0x1A80 <= u && u <= 0x1A89) || (0x1A90 <= u && u <= 0x1A99) ||
        (0x1B50 <= u && u <= 0x1B59) || (0x1BB0 <= u && u <= 0x1BB9) ||
        (0x1C40 <= u && u <= 0x1C49) || (0x1C50 <= u && u <= 0x1C59) ||
        (0xA620 <= u && u <= 0xA629) || (0xA8D0 <= u && u <= 0xA8D9) ||
        (0xA900 <= u && u <= 0xA909) || (0xA9D0 <= u && u <= 0xA9D9) ||
        (0xA9F0 <= u && u <= 0xA9F9) || (0xAA50 <= u && u <= 0xAA59) ||
        (0xABF0 <= u && u <= 0xABF9) || (0xFF10 <= u && u <= 0xFF19) ||
        (0x104A0 <= u && u <= 0x104A9) || (0x10D30 <= u && u <= 0x10D39) ||
        (0x10D40 <= u && u <= 0x10D49) || (0x11066 <= u && u <= 0x1106F) ||
        (0x110F0 <= u && u <= 0x110F9) || (0x11136 <= u && u <= 0x1113F) ||
        (0x111D0 <= u && u <= 0x111D9) || (0x112F0 <= u && u <= 0x112F9) ||
        (0x11450 <= u && u <= 0x11459) || (0x114D0 <= u && u <= 0x114D9) ||
        (0x11650 <= u && u <= 0x11659) || (0x116C0 <= u && u <= 0x116C9) ||
        (0x116D0 <= u && u <= 0x116E3) || (0x11730 <= u && u <= 0x11739) ||
        (0x118E0 <= u && u <= 0x118E9) || (0x11950 <= u && u <= 0x11959) ||
        (0x11BF0 <= u && u <= 0x11BF9) || (0x11C50 <= u && u <= 0x11C59) ||
        (0x11D50 <= u && u <= 0x11D59) || (0x11DA0 <= u && u <= 0x11DA9) ||
        (0x11F50 <= u && u <= 0x11F59) || (0x16130 <= u && u <= 0x16139) ||
        (0x16A60 <= u && u <= 0x16A69) || (0x16AC0 <= u && u <= 0x16AC9) ||
        (0x16B50 <= u && u <= 0x16B59) || (0x16D70 <= u && u <= 0x16D79) ||
        (0x1CCF0 <= u && u <= 0x1CCF9) || (0x1D7CE <= u && u <= 0x1D7FF) ||
        (0x1E140 <= u && u <= 0x1E149) || (0x1E2F0 <= u && u <= 0x1E2F9) ||
        (0x1E4F0 <= u && u <= 0x1E4F9) || (0x1E5F1 <= u && u <= 0x1E5FA) ||
        (0x1E950 <= u && u <= 0x1E959) || (0x1FBF0 <= u && u <= 0x1FBF9)
}

/// Whether `c` is a Unicode decimal digit.
pub fn is_digit_exec(c: char) -> (r: bool)
    ensures
        r == is_digit(c),
{
    let u = c as u32;
    (0x30 <= u && u <= 0x39) || (0x660 <= u && u <= 0x669) || (0x6F0 <= u && u <= 0x6F9) ||
        (0x7C0 <= u && u <= 0x7C9) || (0x966 <= u && u <= 0x96F) ||
        (0x9E6 <= u && u <= 0x9EF) || (0xA66 <= u && u <= 0xA6F) ||
        (0xAE6 <= u && u <= 0xAEF) || (0xB66 <= u && u <= 0xB6F) ||
        (0xBE6 <= u && u <= 0xBEF) || (0xC66 <= u && u <= 0xC6F) ||
        (0xCE6 <= u && u <= 0xCEF) || (0xD66 <= u && u <= 0xD6F) ||
        (0xDE6 <= u && u <= 0xDEF) || (0xE50 <= u && u <= 0xE59) ||
        (0xED0 <= u && u <= 0xED9) || (0xF20 <= u && u <= 0xF29) ||
        (0x1040 <= u && u <= 0x1049) || (0x1090 <= u && u <= 0x1099) ||
        (0x17E0 <= u && u <= 0x17E9) || (0x1810 <= u && u <= 0x1819) ||
        (0x1946 <= u && u <= 0x194F) || (0x19D0 <= u && u <= 0x19D9) ||
        (0x1A80 <= u && u <= 0x1A89) || (0x1A90 <= u && u <= 0x1A99) ||
        (0x1B50 <= u && u <= 0x1B59) || (0x1BB0 <= u && u <= 0x1BB9) ||
        (0x1C40 <= u && u <= 0x1C49) || (0x1C50 <= u && u <= 0x1C59) ||
        (0xA620 <= u && u <= 0xA629) || (0xA8D0 <= u && u <= 0xA8D9) ||
        (0xA900 <= u && u <= 0xA909) || (0xA9D0 <= u && u <= 0xA9D9) ||
        (0xA9F0 <= u && u <= 0xA9F9) || (0xAA50 <= u && u <= 0xAA59) ||
        (0xABF0 <= u && u <= 0xABF9) || (0xFF10 <= u && u <= 0xFF19) ||
        (0x104A0 <= u && u <= 0x104A9) || (0x10D30 <= u && u <= 0x10D39) ||
        (0x10D40 <= u && u <= 0x10D49) || (0x11066 <= u && u <= 0x1106F) ||
        (0x110F0 <= u && u <= 0x110F9) || (0x11136 <= u && u <= 0x1113F) ||
        (0x111D0 <= u && u <= 0x111D9) || (0x112F0 <= u && u <= 0x112F9) ||
        (0x11450 <= u && u <= 0x11459) || (0x114D0 <= u && u <= 0x114D9) ||
        (0x11650 <= u && u <= 0x11659) || (0x116C0 <= u && u <= 0x116C9) ||
        (0x116D0 <= u && u <= 0x116E3) || (0x11730 <= u && u <= 0x11739) ||
        (0x118E0 <= u && u <= 0x118E9) || (0x11950 <= u && u <= 0x11959) ||
        (0x11BF0 <= u && u <= 0x11BF9) || (0x11C50 <= u && u <= 0x11C59) ||
        (0x11D50 <= u && u <= 0x11D59) || (0x11DA0 <= u && u <= 0x11DA9) ||
        (0x11F50 <= u && u <= 0x11F59) || (0x16130 <= u && u <= 0x16139) ||
        (0x16A60 <= u && u <= 0x16A69) || (0x16AC0 <= u && u <= 0x16AC9) ||
        (0x16B50 <= u && u <= 0x16B59) || (0x16D70 <= u && u <= 0x16D79) ||
        (0x1CCF0 <= u && u <= 0x1CCF9) || (0x1D7CE <= u && u <= 0x1D7FF) ||
        (0x1E140 <= u && u <= 0x1E149) || (0x1E2F0 <= u && u <= 0x1E2F9) ||
        (0x1E4F0 <= u && u <= 0x1E4F9) || (0x1E5F1 <= u && u <= 0x1E5FA) ||
        (0x1E950 <= u && u <= 0x1E959) || (0x1FBF0 <= u && u <= 0x1FBF9)
}

/// Length of the longest prefix of `s` whose characters all satisfy `p`.
pub open spec fn lead_run(s: Seq<char>, p: spec_fn(char) -> bool) -> nat
    decreases s.len(),
{
    if s.len() > 0 && p(s[0]) {
        1 + lead_run(s.subrange(1, s.len() as int), p)
    } else {
        0
    }
}

/// Length of the longest suffix of `s` whose characters all satisfy `p`.
pub open spec fn tail_run(s: Seq<char>, p: spec_fn(char) -> bool) -> nat
    decreases s.len(),
{
    if s.len() > 0 && p(s.last()) {
        1 + tail_run(s.drop_last(), p)
    } else {
        0
    }
}

/// A prefix of `i` characters satisfying `p`, followed by one that does not
/// (or by the end), is the leading run.
pub proof fn lemma_lead_run(s: Seq<char>, p: spec_fn(char) -> bool, i: int)
    requires
        0 <= i <= s.len(),
        forall|k: int| 0 <= k < i ==> p(#[trigger] s[k]),
        i == s.len() || !p(s[i]),
    ensures
        lead_run(s, p) == i,
    decreases i,
{
    if i > 0 {
        let t = s.subrange(1, s.len() as int);
        assert forall|k: int| 0 <= k < i - 1 implies p(#[trigger] t[k]) by {
            assert(t[k] == s[k + 1]);
        }
        lemma_lead_run(t, p, i - 1);
    }
}

/// A suffix of `i` characters satisfying `p`, preceded by one that does not
/// (or by the start), is the trailing run.
pub proof fn lemma_tail_run(s: Seq<char>, p: spec_fn(char) -> bool, i: int)
    requires
        0 <= i <= s.len(),
        forall|k: int| s.len() - i <= k < s.len() ==> p(#[trigger] s[k]),
        i == s.len() || !p(s[s.len() - 1 - i]),
    ensures
        tail_run(s, p) == i,
    decreases i,
{
    if i > 0 {
        let t = s.drop_last();
        assert forall|k: int| t.len() - (i - 1) <= k < t.len() implies p(#[trigger] t[k]) by {
            assert(t[k] == s[k]);
        }
        lemma_tail_run(t, p, i - 1);
    }
}

} // verus!

verus! {

/// The character classes that the cleaning passes scan over.
#[derive(Clone, Copy)]
pub enum CharClass {
    Digit,
    Space,
    NotNewline,
    Same(char),
}

/// The predicate a character class stands for.
pub open spec fn class_p(k: CharClass) -> spec_fn(char) -> bool {
    match k {
        CharClass::Digit => |c: char| is_digit(c),
        CharClass::Space => |c: char| is_space(c),
        CharClass::NotNewline => |c: char| c != '\n',
        CharClass::Same(x) => |c: char| c == x,
    }
}

/// Whether `c` belongs to class `k`.
pub fn class_has(k: CharClass, c: char) -> (r: bool)
    ensures
        r == class_p(k)(c),
{
    match k {
        CharClass::Digit => is_digit_exec(c),
        CharClass::Space => is_space_exec(c),
        CharClass::NotNewline => c != '\n',
        CharClass::Same(x) => c == x,
    }
}

/// The end of the run of class `k` that starts at `from`, looking no further than `hi`.
pub fn scan_forward(v: &Vec<char>, from: usize, hi: usize, k: CharClass) -> (j: usize)
    requires
        from <= hi <= v.len(),
    ensures
        from <= j <= hi,
        lead_run(v@.subrange(from as int, hi as int), class_p(k)) == j - from,
{
    let mut j = from;
    while j < hi && class_has(k, v[j])
        invariant
            from <= j <= hi <= v.len(),
            forall|q: int| from <= q < j ==> class_p(k)(#[trigger] v@[q]),
        decreases hi - j,
    {
        j = j + 1;
    }
    proof {
        let t = v@.subrange(from as int, hi as int);
        assert forall|q: int| 0 <= q < j - from implies class_p(k)(#[trigger] t[q]) by {
            assert(t[q] == v@[from + q]);
        }
        lemma_lead_run(t, class_p(k), j - from);
    }
    j
}

/// The start of the run of class `k` that ends at `hi`, looking no further back than `lo`.
pub fn scan_backward(v: &Vec<char>, lo: usize, hi: usize, k: CharClass) -> (j: usize)
    requires
        lo <= hi <= v.len(),
    ensures
        lo <= j <= hi,
        tail_run(v@.subrange(lo as int, hi as int), class_p(k)) == hi - j,
{
    let mut j = hi;
    while j > lo && class_has(k, v[j - 1])
        invariant
            lo <= j <= hi <= v.len(),
            forall|q: int| j <= q < hi ==> class_p(k)(#[trigger] v@[q]),
        decreases j - lo,
    {
        j = j - 1;
    }
    proof {
        let t = v@.subrange(lo as int, hi as int);
        assert forall|q: int| t.len() - (hi - j) <= q < t.len() implies class_p(k)(
            #[trigger] t[q],
        ) by {
            assert(t[q] == v@[lo + q]);
        }
        if j > lo {
            assert(t[t.len() - 1 - (hi - j)] == v@[j - 1]);
        }
        lemma_tail_run(t, class_p(k), hi - j);
    }
    j
}

/// Appends `v[a..b]` to `out`.
pub fn push_range(out: &mut Vec<char>, v: &Vec<char>, a: usize, b: usize)
    requires
        a <= b <= v.len(),
    ensures
        final(out)@ == old(out)@ + v@.subrange(a as int, b as int),
{
    let mut i = a;
    while i < b
        invariant
            a <= i <= b <= v.len(),
            out@ == old(out)@ + v@.subrange(a as int, i as int),
        decreases b - i,
    {
        out.push(v[i]);
        assert(v@.subrange(a as int, (i + 1) as int) =~= v@.subrange(a as int, i as int).push(v@[i as int]));
        i = i + 1;
    }
}

} // verus!
