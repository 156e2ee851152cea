//! The rules that parsed output must never break, as predicates on its text.

use vstd::prelude::*;

verus! {

/// A pattern that parsed output must never show.
#[derive(Debug, Clone, Copy, PartialEq, Eq, Structural)]
pub enum ProbeRule {
    /// Nothing but white space was extracted.
    EmptyOutput,
    /// The output holds `ERROR` or `ParseError`.
    ParseErrorInOutput,
    /// The output holds the marker `[GARBLED]`.
    GarbledTables,
    /// The output holds the marker `[OCR_FAILED]`.
    OcrFailureMarker,
    /// Fewer than five bytes of text remain once white space is trimmed.
    NoTextExtracted,
}

/// `c` has the Unicode `White_Space` property.
pub open spec fn is_white_space(c: char) -> bool {
    let u = c as u32;
    ||| 0x9 <= u <= 0xd
    ||| u == 0x20
    ||| u == 0x85
    ||| u == 0xa0
    ||| u == 0x1680
    ||| 0x2000 <= u <= 0x200a
    ||| u == 0x2028
    ||| u == 0x2029
    ||| u == 0x202f
    ||| u == 0x205f
    ||| u == 0x3000
}

/// `s` without its leading white space.
pub open spec fn trim_start(s: Seq<char>) -> Seq<char>
    decreases s.len(),
{
    if s.len() > 0 && is_white_space(s[0]) {
        trim_start(s.drop_first())
    } else {
        s
    }
}

/// `s` without its trailing white space.
pub open spec fn trim_end(s: Seq<char>) -> Seq<char>
    decreases s.len(),
{
    if s.len() > 0 && is_white_space(s.last()) {
        trim_end(s.drop_last())
    } else {
        s
    }
}

/// `s` without its leading and trailing white space.
pub open spec fn trimmed(s: Seq<char>) -> Seq<char> {
    trim_end(trim_start(s))
}

/// Number of bytes of the UTF-8 encoding of `c`.
pub open spec fn utf8_width(c: char) -> nat {
    let u = c as u32;
    if u < 0x80 {
        1
    } else if u < 0x800 {
        2
    } else if u < 0x10000 {
        3
    } else {
        4
    }
}

/// Number of bytes of the UTF-8 encoding of `s`.
pub open spec fn utf8_len(s: Seq<char>) -> nat
    decreases s.len(),
{
    if s.len() == 0 {
        0
    } else {
        utf8_len(s.drop_last()) + utf8_width(s.last())
    }
}

/// `pat` occurs in `s` as a run of consecutive characters.
pub open spec fn contains_text(s: Seq<char>, pat: Seq<char>) -> bool {
    exists|i: int| 0 <= i <= s.len() - pat.len() && #[trigger] s.subrange(i, i + pat.len()) == pat
}

/// The rule fires on the text `s`.
pub open spec fn fires(rule: ProbeRule, s: Seq<char>) -> bool {
    match rule {
        ProbeRule::EmptyOutput => trimmed(s).len() == 0,
        ProbeRule::ParseErrorInOutput => contains_text(s, "ERROR"@) || contains_text(s, "ParseError"@),
        ProbeRule::GarbledTables => contains_text(s, "[GARBLED]"@),
        ProbeRule::OcrFailureMarker => contains_text(s, "[OCR_FAILED]"@),
        ProbeRule::NoTextExtracted => utf8_len(trimmed(s)) < 5,
    }
}

/// The name under which a rule is reported.
pub open spec fn rule_name(rule: ProbeRule) -> Seq<char> {
    match rule {
        ProbeRule::EmptyOutput => "empty_output"@,
        ProbeRule::ParseErrorInOutput => "parse_error_in_output"@,
        ProbeRule::GarbledTables => "garbled_tables"@,
        ProbeRule::OcrFailureMarker => "ocr_failure_marker"@,
        ProbeRule::NoTextExtracted => "no_text_extracted"@,
    }
}

/// Distinct rules have distinct names.
pub proof fn lemma_rule_names_distinct()
    ensures
        forall|a: ProbeRule, b: ProbeRule| rule_name(a) == rule_name(b) ==> a == b,
{
    reveal_strlit("empty_output");
    reveal_strlit("parse_error_in_output");
    reveal_strlit("garbled_tables");
    reveal_strlit("ocr_failure_marker");
    reveal_strlit("no_text_extracted");
    assert forall|a: ProbeRule, b: ProbeRule| rule_name(a) == rule_name(b) implies a == b by {
        if a != b {
            assert(rule_name(a).len() != rule_name(b).len() || rule_name(a)[0] != rule_name(b)[0]);
        }
    }
}

/// Trimming the start leaves nothing exactly when every character is white
/// space, and otherwise leaves a text that starts with a character that is not.
proof fn lemma_trim_start_ws(s: Seq<char>)
    ensures
        trim_start(s).len() == 0 <==> forall|i: int| 0 <= i < s.len() ==> is_white_space(#[trigger] s[i]),
        trim_start(s).len() > 0 ==> !is_white_space(trim_start(s)[0]),
    decreases s.len(),
{
    if s.len() > 0 && is_white_space(s[0]) {
        let t = s.drop_first();
        lemma_trim_start_ws(t);
        if forall|i: int| 0 <= i < t.len() ==> is_white_space(#[trigger] t[i]) {
            assert forall|i: int| 0 <= i < s.len() implies is_white_space(#[trigger] s[i]) by {
                if i > 0 {
                    assert(s[i] == t[i - 1]);
                }
            }
        }
        if forall|i: int| 0 <= i < s.len() ==> is_white_space(#[trigger] s[i]) {
            assert forall|i: int| 0 <= i < t.len() implies is_white_space(#[trigger] t[i]) by {
                assert(t[i] == s[i + 1]);
            }
        }
    } else if s.len() > 0 {
        assert(!is_white_space(s[0]));
    }
}

/// Trimming the end leaves nothing exactly when every character is white space.
proof fn lemma_trim_end_ws(s: Seq<char>)
    ensures
        trim_end(s).len() == 0 <==> forall|i: int| 0 <= i < s.len() ==> is_white_space(#[trigger] s[i]),
    decreases s.len(),
{
    if s.len() > 0 && is_white_space(s.last()) {
        let t = s.drop_last();
        lemma_trim_end_ws(t);
        if forall|i: int| 0 <= i < t.len() ==> is_white_space(#[trigger] t[i]) {
            assert forall|i: int| 0 <= i < s.len() implies is_white_space(#[trigger] s[i]) by {
                if i < s.len() - 1 {
                    assert(s[i] == t[i]);
                }
            }
        }
        if forall|i: int| 0 <= i < s.len() ==> is_white_space(#[trigger] s[i]) {
            assert forall|i: int| 0 <= i < t.len() implies is_white_space(#[trigger] t[i]) by {
                assert(t[i] == s[i]);
            }
        }
    } else if s.len() > 0 {
        assert(!is_white_space(s[s.len() - 1]));
    }
}

/// Trimming leaves nothing exactly when every character is white space.
pub proof fn lemma_trimmed_empty(s: Seq<char>)
    ensures
        trimmed(s).len() == 0 <==> forall|i: int| 0 <= i < s.len() ==> is_white_space(#[trigger] s[i]),
{
    let t = trim_start(s);
    lemma_trim_start_ws(s);
    lemma_trim_end_ws(t);
    if t.len() > 0 {
        assert(!is_white_space(t[0]));
    }
}

/// Number of characters of `s` that are not white space.
pub open spec fn visible_count(s: Seq<char>) -> nat
    decreases s.len(),
{
    if s.len() == 0 {
        0
    } else {
        visible_count(s.drop_last()) + if is_white_space(s.last()) {
            0nat
        } else {
            1nat
        }
    }
}

/// Bytes and visible characters add up over a concatenation.
proof fn lemma_counts_add(a: Seq<char>, b: Seq<char>)
    ensures
        utf8_len(a + b) == utf8_len(a) + utf8_len(b),
        visible_count(a + b) == visible_count(a) + visible_count(b),
    decreases b.len(),
{
    if b.len() == 0 {
        assert(a + b =~= a);
    } else {
        lemma_counts_add(a, b.drop_last());
        assert((a + b).drop_last() =~= a + b.drop_last());
        assert((a + b).last() == b.last());
    }
}

/// A text has no more visible characters than bytes.
proof fn lemma_visible_le_bytes(s: Seq<char>)
    ensures
        visible_count(s) <= utf8_len(s),
    decreases s.len(),
{
    if s.len() > 0 {
        lemma_visible_le_bytes(s.drop_last());
    }
}

/// A text of white space only has no visible character.
proof fn lemma_white_invisible(s: Seq<char>)
    requires
        forall|i: int| 0 <= i < s.len() ==> is_white_space(#[trigger] s[i]),
    ensures
        visible_count(s) == 0,
    decreases s.len(),
{
    if s.len() > 0 {
        assert(is_white_space(s[s.len() - 1]));
        lemma_white_invisible(s.drop_last());
    }
}

/// Trimming the start removes a run of white space.
proof fn lemma_trim_start_split(s: Seq<char>) -> (p: Seq<char>)
    ensures
        s == p + trim_start(s),
        forall|i: int| 0 <= i < p.len() ==> is_white_space(#[trigger] p[i]),
    decreases s.len(),
{
    if s.len() > 0 && is_white_space(s[0]) {
        let q = lemma_trim_start_split(s.drop_first());
        let p = seq![s[0]] + q;
        assert(trim_start(s) == trim_start(s.drop_first()));
        assert(s.drop_first() == q + trim_start(s.drop_first()));
        assert(s =~= seq![s[0]] + s.drop_first());
        assert(s =~= p + trim_start(s));
        assert forall|i: int| 0 <= i < p.len() implies is_white_space(#[trigger] p[i]) by {
            if i > 0 {
                assert(p[i] == q[i - 1]);
            }
        }
        p
    } else {
        assert(s =~= Seq::<char>::empty() + s);
        Seq::empty()
    }
}

/// Trimming the end removes a run of white space.
proof fn lemma_trim_end_split(s: Seq<char>) -> (q: Seq<char>)
    ensures
        s == trim_end(s) + q,
        forall|i: int| 0 <= i < q.len() ==> is_white_space(#[trigger] q[i]),
    decreases s.len(),
{
    if s.len() > 0 && is_white_space(s.last()) {
        let r = lemma_trim_end_split(s.drop_last());
        let q = r.push(s.last());
        assert(trim_end(s) == trim_end(s.drop_last()));
        assert(s.drop_last() == trim_end(s.drop_last()) + r);
        assert(s =~= s.drop_last().push(s.last()));
        assert(s =~= trim_end(s) + q);
        assert forall|i: int| 0 <= i < q.len() implies is_white_space(#[trigger] q[i]) by {
            if i < r.len() {
                assert(q[i] == r[i]);
            }
        }
        q
    } else {
        assert(s =~= s + Seq::<char>::empty());
        Seq::empty()
    }
}

/// Trimming keeps every visible character and adds no byte.
pub proof fn lemma_trimmed_counts(s: Seq<char>)
    ensures
        visible_count(trimmed(s)) == visible_count(s),
        utf8_len(trimmed(s)) <= utf8_len(s),
        visible_count(s) <= utf8_len(trimmed(s)),
{
    let t = trim_start(s);
    let p = lemma_trim_start_split(s);
    let q = lemma_trim_end_split(t);
    lemma_counts_add(p, t);
    lemma_counts_add(trim_end(t), q);
    lemma_white_invisible(p);
    lemma_white_invisible(q);
    lemma_visible_le_bytes(trimmed(s));
}

/// The characters of a string slice.
pub fn chars_of(s: &str) -> (v: Vec<char>)
    ensures
        v@ == s@,
{
    let mut v: Vec<char> = Vec::new();
    for c in it: s.chars()
        invariant
            v@ == it.seq().take(it.index() as int),
    {
        v.push(c);
    }
    v
}

/// `c` has the Unicode `White_Space` property.
pub fn white_space(c: char) -> (r: bool)
    ensures
        r == is_white_space(c),
{
    let u = c as u32;
    (0x9 <= u && u <= 0xd) || u == 0x20 || u == 0x85 || u == 0xa0 || u == 0x1680 || (0x2000 <= u && u
        <= 0x200a) || u == 0x2028 || u == 0x2029 || u == 0x202f || u == 0x205f || u == 0x3000
}

/// The bounds `(lo, hi)` of the text of `s` once white space is trimmed.
pub fn trim_bounds(s: &Vec<char>) -> (r: (usize, usize))
    ensures
        r.0 <= r.1 <= s@.len(),
        trimmed(s@) == s@.subrange(r.0 as int, r.1 as int),
{
    let n = s.len();
    let mut lo: usize = 0;
    proof {
        assert(s@.subrange(0, n as int) =~= s@);
    }
    while lo < n && white_space(s[lo])
        invariant
            lo <= n == s@.len(),
            trim_start(s@) == trim_start(s@.subrange(lo as int, n as int)),
        decreases n - lo,
    {
        proof {
            let sub = s@.subrange(lo as int, n as int);
            assert(sub.drop_first() =~= s@.subrange(lo + 1, n as int));
        }
        lo += 1;
    }
    let mut hi: usize = n;
    while hi > lo && white_space(s[hi - 1])
        invariant
            lo <= hi <= n == s@.len(),
            trim_start(s@) == s@.subrange(lo as int, n as int),
            trimmed(s@) == trim_end(s@.subrange(lo as int, hi as int)),
        decreases hi - lo,
    {
        proof {
            let sub = s@.subrange(lo as int, hi as int);
            assert(sub.drop_last() =~= s@.subrange(lo as int, hi - 1));
        }
        hi -= 1;
    }
    (lo, hi)
}

/// The smaller of `n` and five.
pub open spec fn capped(n: nat) -> nat {
    if n < 5 {
        n
    } else {
        5
    }
}

/// Whether `pat` occurs in `s`.
pub fn contains_chars(s: &Vec<char>, pat: &Vec<char>) -> (r: bool)
    ensures
        r == contains_text(s@, pat@),
{
    if pat.len() == 0 {
        assert(s@.subrange(0, 0 + pat@.len() as int) =~= pat@);
        return true;
    }
    if pat.len() > s.len() {
        return false;
    }
    let last = s.len() - pat.len();
    let mut i: usize = 0;
    while i <= last
        invariant
            0 < pat@.len() <= s@.len(),
            last + pat@.len() == s@.len(),
            s@.len() <= usize::MAX,
            i <= last + 1,
            forall|t: int| 0 <= t < i ==> #[trigger] s@.subrange(t, t + pat@.len()) != pat@,
        decreases last + 1 - i,
    {
        let mut j: usize = 0;
        let mut same = true;
        while j < pat.len()
            invariant
                i <= last,
                last + pat@.len() == s@.len(),
                s@.len() <= usize::MAX,
                j <= pat@.len(),
                same == forall|u: int| 0 <= u < j ==> s@[i + u] == pat@[u],
            decreases pat@.len() - j,
        {
            if s[i + j] != pat[j] {
                same = false;
            }
            j += 1;
        }
        if same {
            assert(s@.subrange(i as int, i + pat@.len()) =~= pat@);
            return true;
        }
        proof {
            let u = choose|u: int| 0 <= u < pat@.len() && s@[i + u] != pat@[u];
            assert(s@.subrange(i as int, i + pat@.len())[u] != pat@[u]);
        }
        i += 1;
    }
    false
}

/// Whether the rule fires on the text `content`.
pub fn rule_fires(rule: ProbeRule, content: &String) -> (r: bool)
    ensures
        r == fires(rule, content@),
{
    let s = chars_of(content.as_str());
    match rule {
        ProbeRule::EmptyOutput => {
            let (lo, hi) = trim_bounds(&s);
            lo == hi
        },
        ProbeRule::ParseErrorInOutput => {
            let a = chars_of("ERROR");
            let b = chars_of("ParseError");
            contains_chars(&s, &a) || contains_chars(&s, &b)
        },
        ProbeRule::GarbledTables => {
            let a = chars_of("[GARBLED]");
            contains_chars(&s, &a)
        },
        ProbeRule::OcrFailureMarker => {
            let a = chars_of("[OCR_FAILED]");
            contains_chars(&s, &a)
        },
        ProbeRule::NoTextExtracted => {
            let (lo, hi) = trim_bounds(&s);
            let mut total: u64 = 0;
            let mut k: usize = lo;
            proof {
                assert(s@.subrange(lo as int, lo as int) =~= Seq::<char>::empty());
            }
            while k < hi
                invariant
                    lo <= k <= hi <= s@.len(),
                    total == capped(utf8_len(s@.subrange(lo as int, k as int))),
                decreases hi - k,
            {
                let u = s[k] as u32;
                let w: u64 = if u < 0x80 {
                    1
                } else if u < 0x800 {
                    2
                } else if u < 0x10000 {
                    3
                } else {
                    4
                };
                proof {
                    let sub = s@.subrange(lo as int, k + 1);
                    assert(sub.drop_last() =~= s@.subrange(lo as int, k as int));
                    assert(w == utf8_width(s@[k as int]));
                }
                total = if total + w >= 5 {
                    5
                } else {
                    total + w
                };
                k += 1;
            }
            total < 5
        },
    }
}

/// The rule reported under `name`, if any.
pub fn rule_named(name: &str) -> (r: Option<ProbeRule>)
    ensures
        r matches Some(rule) ==> rule_name(rule) == name@,
        r is None ==> forall|rule: ProbeRule| rule_name(rule) != name@,
{
    if crate::feature::str_eq(name, "empty_output") {
        Some(ProbeRule::EmptyOutput)
    } else if crate::feature::str_eq(name, "parse_error_in_output") {
        Some(ProbeRule::ParseErrorInOutput)
    } else if crate::feature::str_eq(name, "garbled_tables") {
        Some(ProbeRule::GarbledTables)
    } else if crate::feature::str_eq(name, "ocr_failure_marker") {
        Some(ProbeRule::OcrFailureMarker)
    } else if crate::feature::str_eq(name, "no_text_extracted") {
        Some(ProbeRule::NoTextExtracted)
    } else {
        proof {
            assert forall|rule: ProbeRule| rule_name(rule) != name@ by {
                match rule {
                    ProbeRule::EmptyOutput => {},
                    ProbeRule::ParseErrorInOutput => {},
                    ProbeRule::GarbledTables => {},
                    ProbeRule::OcrFailureMarker => {},
                    ProbeRule::NoTextExtracted => {},
                }
            }
        }
        None
    }
}

} // verus!
