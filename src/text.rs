//! The cleaning passes applied to raw OCR output, each a total function on
//! text, and the fixed order in which they run.
use vstd::prelude::*;
use crate::chars::{chars_of, string_of, is_space, is_space_exec, is_digit, is_digit_exec, lead_run, tail_run, CharClass, class_p, class_has, scan_forward, scan_backward, push_range};

verus! {

/// A single character that the scanner leaves behind as noise.
pub open spec fn is_artifact_char(c: char) -> bool {
    c == '[' || c == '?' || c == '{' || c == '}' || c == '!' || c == ']'
}

/// `s` with every artifact character, every `...` and every `::` taken out,
/// matched left to right without overlap.
pub open spec fn without_artifacts(s: Seq<char>) -> Seq<char>
    decreases s.len(),
{
    if s.len() == 0 {
        s
    } else if is_artifact_char(s[0]) {
        without_artifacts(s.subrange(1, s.len() as int))
    } else if s.len() >= 3 && s[0] == '.' && s[1] == '.' && s[2] == '.' {
        without_artifacts(s.subrange(3, s.len() as int))
    } else if s.len() >= 2 && s[0] == ':' && s[1] == ':' {
        without_artifacts(s.subrange(2, s.len() as int))
    } else {
        seq![s[0]] + without_artifacts(s.subrange(1, s.len() as int))
    }
}

/// Removes scanner noise: the characters `[ ? { } ! ]`, ellipses and `::`.
pub fn remove_scan_artifacts(text: &str) -> (r: String)
    ensures
        r@ == without_artifacts(text@),
{
    let v = chars_of(text);
    let n = v.len();
    let mut out: Vec<char> = Vec::new();
    let mut i: usize = 0;
    assert(v@.subrange(0, n as int) =~= v@);
    assert(out@ + without_artifacts(v@) =~= without_artifacts(v@));
    while i < n
        invariant
            v@ == text@,
            n == v.len(),
            i <= n,
            out@ + without_artifacts(v@.subrange(i as int, n as int)) == without_artifacts(v@),
        decreases n - i,
    {
        let ghost rest = v@.subrange(i as int, n as int);
        let c = v[i];
        let step: usize;
        if c == '[' || c == '?' || c == '{' || c == '}' || c == '!' || c == ']' {
            step = 1;
        } else if n - i >= 3 && c == '.' && v[i + 1] == '.' && v[i + 2] == '.' {
            step = 3;
        } else if n - i >= 2 && c == ':' && v[i + 1] == ':' {
            step = 2;
        } else {
            out.push(c);
            step = 1;
        }
        assert(rest.subrange(step as int, rest.len() as int) =~= v@.subrange(
            (i + step) as int,
            n as int,
        ));
        proof {
            if step == 1 && !is_artifact_char(c) {
                assert(out@ + without_artifacts(v@.subrange((i + 1) as int, n as int))
                    =~= out@.drop_last() + without_artifacts(rest));
            }
        }
        i = i + step;
    }
    assert(v@.subrange(n as int, n as int) =~= Seq::<char>::empty());
    assert(out@ + without_artifacts(Seq::<char>::empty()) =~= out@);
    string_of(&out)
}

/// Number of characters of `s` that a page number at the very start of the
/// text covers: a run of digits and the whitespace after it.
pub open spec fn page_number_lead(s: Seq<char>) -> nat {
    let d = lead_run(s, class_p(CharClass::Digit));
    if d > 0 {
        d + lead_run(s.subrange(d as int, s.len() as int), class_p(CharClass::Space))
    } else {
        0
    }
}

/// Number of characters of `s` that a page number at the very end of the
/// text covers: a run of digits and the whitespace before it.
pub open spec fn page_number_tail(s: Seq<char>) -> nat {
    let t = tail_run(s, class_p(CharClass::Digit));
    if t > 0 {
        t + tail_run(s.subrange(0, s.len() - t), class_p(CharClass::Space))
    } else {
        0
    }
}

/// `s` without a page number at its start and without one at its end.
pub open spec fn without_page_numbers(s: Seq<char>) -> Seq<char> {
    let r = s.subrange(page_number_lead(s) as int, s.len() as int);
    r.subrange(0, r.len() - page_number_tail(r))
}

/// Strips a run of digits, with the whitespace next to it, from the very
/// start and from the very end of the whole text.
pub fn remove_page_numbers(text: &str) -> (r: String)
    ensures
        r@ == without_page_numbers(text@),
{
    let v = chars_of(text);
    let n = v.len();
    let d = scan_forward(&v, 0, n, CharClass::Digit);
    assert(v@.subrange(0, n as int) =~= v@);
    let lead = if d > 0 {
        scan_forward(&v, d, n, CharClass::Space)
    } else {
        0
    };
    let t = scan_backward(&v, lead, n, CharClass::Digit);
    let end = if t < n {
        scan_backward(&v, lead, t, CharClass::Space)
    } else {
        n
    };
    proof {
        let rr = v@.subrange(lead as int, n as int);
        assert(page_number_lead(v@) == lead);
        assert(rr.subrange(0, rr.len() - (n - t)) =~= v@.subrange(lead as int, t as int));
        assert(page_number_tail(rr) == n - end);
        assert(rr.subrange(0, rr.len() - (n - end)) =~= v@.subrange(lead as int, end as int));
    }
    let mut out: Vec<char> = Vec::new();
    push_range(&mut out, &v, lead, end);
    assert(out@ =~= v@.subrange(lead as int, end as int));
    string_of(&out)
}

/// `s` with every hyphen that ends a line joined to the next line.
pub open spec fn split_words_joined(s: Seq<char>) -> Seq<char>
    decreases s.len(),
{
    if s.len() == 0 {
        s
    } else if s.len() >= 2 && s[0] == '-' && s[1] == '\n' {
        split_words_joined(s.subrange(2, s.len() as int))
    } else {
        seq![s[0]] + split_words_joined(s.subrange(1, s.len() as int))
    }
}

/// Joins words split across lines: removes every hyphen directly followed by
/// a newline, together with that newline.
pub fn combine_split_words(text: &str) -> (r: String)
    ensures
        r@ == split_words_joined(text@),
{
    let v = chars_of(text);
    let n = v.len();
    let mut out: Vec<char> = Vec::new();
    let mut i: usize = 0;
    assert(v@.subrange(0, n as int) =~= v@);
    assert(out@ + split_words_joined(v@) =~= split_words_joined(v@));
    while i < n
        invariant
            v@ == text@,
            n == v.len(),
            i <= n,
            out@ + split_words_joined(v@.subrange(i as int, n as int)) == split_words_joined(v@),
        decreases n - i,
    {
        let ghost rest = v@.subrange(i as int, n as int);
        let step: usize;
        if n - i >= 2 && v[i] == '-' && v[i + 1] == '\n' {
            step = 2;
        } else {
            out.push(v[i]);
            step = 1;
        }
        assert(rest.subrange(step as int, rest.len() as int) =~= v@.subrange(
            (i + step) as int,
            n as int,
        ));
        proof {
            if step == 1 {
                assert(out@ + split_words_joined(v@.subrange((i + 1) as int, n as int))
                    =~= out@.drop_last() + split_words_joined(rest));
            }
        }
        i = i + step;
    }
    assert(v@.subrange(n as int, n as int) =~= Seq::<char>::empty());
    assert(out@ + split_words_joined(Seq::<char>::empty()) =~= out@);
    string_of(&out)
}

/// `s` begins with `Page ` followed by a digit.
pub open spec fn starts_with_page_header(s: Seq<char>) -> bool {
    s.len() >= 6 && s[0] == 'P' && s[1] == 'a' && s[2] == 'g' && s[3] == 'e' && s[4] == ' '
        && is_digit(s[5])
}

/// `s` with every `Page <digits>` taken out, matched left to right.
pub open spec fn without_headers(s: Seq<char>) -> Seq<char>
    decreases s.len(),
{
    if s.len() == 0 {
        s
    } else if starts_with_page_header(s) {
        let k = 5 + lead_run(s.subrange(5, s.len() as int), class_p(CharClass::Digit));
        if k <= s.len() {
            without_headers(s.subrange(k as int, s.len() as int))
        } else {
            s
        }
    } else {
        seq![s[0]] + without_headers(s.subrange(1, s.len() as int))
    }
}

/// Removes running headers and footers of the form `Page <digits>`.
pub fn remove_headers_and_footers(text: &str) -> (r: String)
    ensures
        r@ == without_headers(text@),
{
    let v = chars_of(text);
    let n = v.len();
    let mut out: Vec<char> = Vec::new();
    let mut i: usize = 0;
    assert(v@.subrange(0, n as int) =~= v@);
    assert(out@ + without_headers(v@) =~= without_headers(v@));
    while i < n
        invariant
            v@ == text@,
            n == v.len(),
            i <= n,
            out@ + without_headers(v@.subrange(i as int, n as int)) == without_headers(v@),
        decreases n - i,
    {
        let ghost rest = v@.subrange(i as int, n as int);
        let step: usize;
        if n - i >= 6 && v[i] == 'P' && v[i + 1] == 'a' && v[i + 2] == 'g' && v[i + 3] == 'e'
            && v[i + 4] == ' ' && is_digit_exec(v[i + 5]) {
            let j = scan_forward(&v, i + 5, n, CharClass::Digit);
            assert(rest.subrange(5, rest.len() as int) =~= v@.subrange((i + 5) as int, n as int));
            step = j - i;
        } else {
            out.push(v[i]);
            step = 1;
        }
        assert(rest.subrange(step as int, rest.len() as int) =~= v@.subrange(
            (i + step) as int,
            n as int,
        ));
        proof {
            if step == 1 && !starts_with_page_header(rest) {
                assert(out@ + without_headers(v@.subrange((i + 1) as int, n as int))
                    =~= out@.drop_last() + without_headers(rest));
            }
        }
        i = i + step;
    }
    assert(v@.subrange(n as int, n as int) =~= Seq::<char>::empty());
    assert(out@ + without_headers(Seq::<char>::empty()) =~= out@);
    string_of(&out)
}

/// Position `i` of `s` holds a newline with no newline on either side.
pub open spec fn is_lone_newline(s: Seq<char>, i: int) -> bool {
    s[i] == '\n' && (i == 0 || s[i - 1] != '\n') && (i == s.len() - 1 || s[i + 1] != '\n')
}

/// `s` with each lone newline replaced by a space; runs of two or more
/// newlines (paragraph breaks) are kept as they are.
pub open spec fn newlines_normalized(s: Seq<char>) -> Seq<char> {
    Seq::new(s.len(), |i: int| if is_lone_newline(s, i) { ' ' } else { s[i] })
}

/// Turns line breaks inside a paragraph into spaces while keeping the blank
/// lines that separate paragraphs.
pub fn normalize_newlines_preserve_paragraphs(text: &str) -> (r: String)
    ensures
        r@ == newlines_normalized(text@),
{
    let v = chars_of(text);
    let n = v.len();
    let mut out: Vec<char> = Vec::new();
    let mut i: usize = 0;
    while i < n
        invariant
            v@ == text@,
            n == v.len(),
            i <= n,
            out@ == newlines_normalized(v@).subrange(0, i as int),
        decreases n - i,
    {
        let c = v[i];
        if c == '\n' && (i == 0 || v[i - 1] != '\n') && (i == n - 1 || v[i + 1] != '\n') {
            out.push(' ');
        } else {
            out.push(c);
        }
        assert(out@ =~= newlines_normalized(v@).subrange(0, (i + 1) as int));
        i = i + 1;
    }
    assert(out@ =~= newlines_normalized(v@));
    string_of(&out)
}

/// `l` without whitespace at either end.
pub open spec fn trim(l: Seq<char>) -> Seq<char> {
    let rest = l.subrange(lead_run(l, class_p(CharClass::Space)) as int, l.len() as int);
    rest.subrange(0, rest.len() - tail_run(rest, class_p(CharClass::Space)))
}

/// The lines of `s` (split at each newline; a final newline ends the last
/// line rather than starting an empty one), each trimmed, joined with single
/// newlines.
pub open spec fn trimmed_lines(s: Seq<char>) -> Seq<char>
    decreases s.len(),
{
    if s.len() == 0 {
        s
    } else {
        let e = lead_run(s, class_p(CharClass::NotNewline));
        let line = trim(s.subrange(0, e as int));
        if e + 1 < s.len() {
            line + seq!['\n'] + trimmed_lines(s.subrange(e + 1 as int, s.len() as int))
        } else {
            line
        }
    }
}

/// Strips leading and trailing whitespace from every line.
pub fn trim_lines(text: &str) -> (r: String)
    ensures
        r@ == trimmed_lines(text@),
{
    let v = chars_of(text);
    let n = v.len();
    let mut out: Vec<char> = Vec::new();
    let mut i: usize = 0;
    assert(v@.subrange(0, n as int) =~= v@);
    assert(out@ + trimmed_lines(v@) =~= trimmed_lines(v@));
    while i < n
        invariant
            v@ == text@,
            n == v.len(),
            i <= n,
            out@ + trimmed_lines(v@.subrange(i as int, n as int)) == trimmed_lines(v@),
        decreases n - i,
    {
        let ghost rest = v@.subrange(i as int, n as int);
        let ghost old_out = out@;
        let e = scan_forward(&v, i, n, CharClass::NotNewline);
        let a = scan_forward(&v, i, e, CharClass::Space);
        let b = scan_backward(&v, a, e, CharClass::Space);
        push_range(&mut out, &v, a, b);
        proof {
            let l = rest.subrange(0, e - i);
            assert(l =~= v@.subrange(i as int, e as int));
            let lr = l.subrange(a - i, l.len() as int);
            assert(lr =~= v@.subrange(a as int, e as int));
            assert(lr.subrange(0, lr.len() - (e - b)) =~= v@.subrange(a as int, b as int));
            assert(trim(l) == v@.subrange(a as int, b as int));
        }
        if n - e > 1 {
            out.push('\n');
            assert(rest.subrange(e + 1 - i, rest.len() as int) =~= v@.subrange(
                (e + 1) as int,
                n as int,
            ));
            assert(out@ + trimmed_lines(v@.subrange((e + 1) as int, n as int)) =~= old_out
                + trimmed_lines(rest));
            i = e + 1;
        } else {
            assert(v@.subrange(n as int, n as int) =~= Seq::<char>::empty());
            assert(out@ + trimmed_lines(v@.subrange(n as int, n as int)) =~= old_out
                + trimmed_lines(rest));
            i = n;
        }
    }
    assert(v@.subrange(n as int, n as int) =~= Seq::<char>::empty());
    assert(out@ + trimmed_lines(Seq::<char>::empty()) =~= out@);
    string_of(&out)
}

/// Length of the run that starts `s` (non-empty): one for a newline, else
/// the number of leading copies of the first character.
pub open spec fn run_len(s: Seq<char>) -> nat {
    if s[0] == '\n' {
        1
    } else {
        lead_run(s, class_p(CharClass::Same(s[0])))
    }
}

/// `s` with every run of four or more copies of one character taken out,
/// runs of newlines excepted.
pub open spec fn without_repeats(s: Seq<char>) -> Seq<char>
    decreases s.len(),
{
    if s.len() == 0 {
        s
    } else {
        let r = run_len(s);
        if 1 <= r <= s.len() {
            let kept = if s[0] != '\n' && r >= 4 {
                Seq::<char>::empty()
            } else {
                s.subrange(0, r as int)
            };
            kept + without_repeats(s.subrange(r as int, s.len() as int))
        } else {
            s
        }
    }
}

/// Drops OCR noise such as dash rules and dot leaders: every run of four or
/// more copies of the same character, newlines never included.
pub fn remove_repetitive_patterns_preserving_paragraphs(text: &str) -> (r: String)
    ensures
        r@ == without_repeats(text@),
{
    let v = chars_of(text);
    let n = v.len();
    let mut out: Vec<char> = Vec::new();
    let mut i: usize = 0;
    assert(v@.subrange(0, n as int) =~= v@);
    assert(out@ + without_repeats(v@) =~= without_repeats(v@));
    while i < n
        invariant
            v@ == text@,
            n == v.len(),
            i <= n,
            out@ + without_repeats(v@.subrange(i as int, n as int)) == without_repeats(v@),
        decreases n - i,
    {
        let ghost rest = v@.subrange(i as int, n as int);
        let ghost old_out = out@;
        let c = v[i];
        let j = if c == '\n' {
            i + 1
        } else {
            scan_forward(&v, i, n, CharClass::Same(c))
        };
        proof {
            if c != '\n' {
                assert(class_p(CharClass::Same(c))(rest[0]));
                assert(lead_run(rest, class_p(CharClass::Same(c))) >= 1);
            }
            assert(run_len(rest) == j - i);
        }
        if c == '\n' || j - i < 4 {
            push_range(&mut out, &v, i, j);
            assert(rest.subrange(0, j - i) =~= v@.subrange(i as int, j as int));
        }
        assert(rest.subrange(j - i, rest.len() as int) =~= v@.subrange(j as int, n as int));
        assert(out@ + without_repeats(v@.subrange(j as int, n as int)) =~= old_out
            + without_repeats(rest));
        i = j;
    }
    assert(v@.subrange(n as int, n as int) =~= Seq::<char>::empty());
    assert(out@ + without_repeats(Seq::<char>::empty()) =~= out@);
    string_of(&out)
}

/// A character that survives the optional non-alphabetic pass: an ASCII
/// letter or ASCII digit, whitespace, or one of `. , ? !`.
pub open spec fn is_kept_char(c: char) -> bool {
    ('a' <= c && c <= 'z') || ('A' <= c && c <= 'Z') || ('0' <= c && c <= '9') || is_space(c) || c == '.'
        || c == ',' || c == '?' || c == '!'
}

/// `s` with only the characters that `is_kept_char` accepts, in order.
pub open spec fn only_kept_chars(s: Seq<char>) -> Seq<char>
    decreases s.len(),
{
    if s.len() == 0 {
        s
    } else {
        (if is_kept_char(s[0]) {
            seq![s[0]]
        } else {
            Seq::<char>::empty()
        }) + only_kept_chars(s.subrange(1, s.len() as int))
    }
}

/// Strips every character other than ASCII letters and digits, whitespace,
/// and `. , ? !`.
pub fn remove_non_alphabetic(text: &str) -> (r: String)
    ensures
        r@ == only_kept_chars(text@),
{
    let v = chars_of(text);
    let n = v.len();
    let mut out: Vec<char> = Vec::new();
    let mut i: usize = 0;
    assert(v@.subrange(0, n as int) =~= v@);
    assert(out@ + only_kept_chars(v@) =~= only_kept_chars(v@));
    while i < n
        invariant
            v@ == text@,
            n == v.len(),
            i <= n,
            out@ + only_kept_chars(v@.subrange(i as int, n as int)) == only_kept_chars(v@),
        decreases n - i,
    {
        let ghost rest = v@.subrange(i as int, n as int);
        let ghost old_out = out@;
        let c = v[i];
        if ('a' <= c && c <= 'z') || ('A' <= c && c <= 'Z') || ('0' <= c && c <= '9')
            || is_space_exec(c) || c == '.' || c == ',' || c == '?' || c == '!' {
            out.push(c);
        }
        assert(rest.subrange(1, rest.len() as int) =~= v@.subrange((i + 1) as int, n as int));
        assert(out@ + only_kept_chars(v@.subrange((i + 1) as int, n as int)) =~= old_out
            + only_kept_chars(rest));
        i = i + 1;
    }
    assert(v@.subrange(n as int, n as int) =~= Seq::<char>::empty());
    assert(out@ + only_kept_chars(Seq::<char>::empty()) =~= out@);
    string_of(&out)
}

/// Which optional passes the cleaner runs.
pub struct CleanerConfig {
    /// Run `remove_non_alphabetic` between line trimming and repetition removal.
    pub strip_non_alphabetic: bool,
}

impl CleanerConfig {
    /// The standard pipeline: no non-alphabetic stripping.
    pub fn new() -> (r: CleanerConfig)
        ensures
            !r.strip_non_alphabetic,
    {
        CleanerConfig { strip_non_alphabetic: false }
    }
}

/// The passes up to and including line trimming, in their fixed order.
pub open spec fn cleaned_up_to_trim(s: Seq<char>) -> Seq<char> {
    trimmed_lines(
        newlines_normalized(
            without_headers(split_words_joined(without_page_numbers(without_artifacts(s)))),
        ),
    )
}

/// The whole cleaning pipeline, with or without the non-alphabetic pass.
pub open spec fn cleaned_with(s: Seq<char>, strip_non_alphabetic: bool) -> Seq<char> {
    let t = cleaned_up_to_trim(s);
    if strip_non_alphabetic {
        without_repeats(only_kept_chars(t))
    } else {
        without_repeats(t)
    }
}

/// The standard cleaning pipeline.
pub open spec fn cleaned(s: Seq<char>) -> Seq<char> {
    cleaned_with(s, false)
}

/// Runs the cleaning passes in order: scan artifacts, page numbers, split
/// words, headers and footers, newlines, line trimming, then (when
/// configured) non-alphabetic characters, and last repeated characters.
pub fn clean_with_config(text: &str, config: &CleanerConfig) -> (r: String)
    ensures
        r@ == cleaned_with(text@, config.strip_non_alphabetic),
{
    let t = remove_scan_artifacts(text);
    let t = remove_page_numbers(t.as_str());
    let t = combine_split_words(t.as_str());
    let t = remove_headers_and_footers(t.as_str());
    let t = normalize_newlines_preserve_paragraphs(t.as_str());
    let t = trim_lines(t.as_str());
    let t = if config.strip_non_alphabetic {
        remove_non_alphabetic(t.as_str())
    } else {
        t
    };
    remove_repetitive_patterns_preserving_paragraphs(t.as_str())
}

/// The standard cleaning pipeline applied to raw OCR text.
pub fn clean_ocr_text(text: &str) -> (r: String)
    ensures
        r@ == cleaned(text@),
{
    clean_with_config(text, &CleanerConfig::new())
}

/// Text that no cleaning pass changes comes out of the whole pipeline as it
/// went in, so cleaning it a second time changes nothing further.
pub proof fn lemma_clean_text_is_fixed(s: Seq<char>)
    requires
        without_artifacts(s) == s,
        without_page_numbers(s) == s,
        split_words_joined(s) == s,
        without_headers(s) == s,
        newlines_normalized(s) == s,
        trimmed_lines(s) == s,
        without_repeats(s) == s,
    ensures
        cleaned(s) == s,
        cleaned(cleaned(s)) == cleaned(s),
{
}

/// Newline normalization is idempotent: after one run no lone newline is
/// left, and every remaining newline has a newline beside it.
pub proof fn lemma_newlines_normalized_idempotent(s: Seq<char>)
    ensures
        newlines_normalized(newlines_normalized(s)) == newlines_normalized(s),
{
    let t = newlines_normalized(s);
    assert forall|i: int| 0 <= i < t.len() implies !is_lone_newline(t, i) by {
        if t[i] == '\n' {
            assert(s[i] == '\n' && !is_lone_newline(s, i));
            if i > 0 && s[i - 1] == '\n' {
                assert(t[i - 1] == '\n');
            } else {
                assert(s[i + 1] == '\n');
                assert(t[i + 1] == '\n');
            }
        }
    }
    assert(newlines_normalized(t) =~= t);
}

} // verus!
