//! Two independent pure text scanners: slug normalization and
//! email-pattern extraction by a manual bidirectional scan around each `@`.

use vstd::prelude::*;
use vstd::string::StrSliceExecFns;

verus! {

/// ASCII letter or digit.
pub open spec fn is_ascii_alnum(c: char) -> bool {
    (97 <= c as u32 && c as u32 <= 122)
        || (65 <= c as u32 && c as u32 <= 90)
        || (48 <= c as u32 && c as u32 <= 57)
}

/// ASCII uppercase letters map to lowercase; everything else is unchanged.
pub open spec fn lower_char(c: char) -> char {
    if 65 <= c as u32 && c as u32 <= 90 {
        ((c as u32 + 32) as u8) as char
    } else {
        c
    }
}

fn ascii_alnum(c: char) -> (r: bool)
    ensures
        r == is_ascii_alnum(c),
{
    let u = c as u32;
    (97 <= u && u <= 122) || (65 <= u && u <= 90) || (48 <= u && u <= 57)
}

fn to_lower(c: char) -> (r: char)
    ensures
        r == lower_char(c),
{
    let u = c as u32;
    if 65 <= u && u <= 90 {
        (u + 32) as u8 as char
    } else {
        c
    }
}

/// Relies on `String::push`: appends exactly the given character.
#[verifier::external_body]
pub(crate) fn push_char(s: &mut String, c: char)
    ensures
        final(s)@ == old(s)@.push(c),
{
    s.push(c);
}

/// Relies on `String::pop`: removes and returns the last character, or
/// returns `None` and leaves the string unchanged when it is empty.
#[verifier::external_body]
fn pop_char(s: &mut String) -> (r: Option<char>)
    ensures
        old(s)@.len() == 0 ==> final(s)@ == old(s)@ && r is None,
        old(s)@.len() > 0 ==> final(s)@ == old(s)@.drop_last()
            && r == Some(old(s)@.last()),
{
    s.pop()
}

/// The slug body before trailing-dash trimming: each ASCII alphanumeric
/// character is lowercased and kept, and any run of other characters
/// collapses to one `-`; `last_dash` says whether the previous output
/// character was a dash (or the output is still at its start).
pub open spec fn slug_core(s: Seq<char>, last_dash: bool) -> Seq<char>
    decreases s.len(),
{
    if s.len() == 0 {
        Seq::empty()
    } else if is_ascii_alnum(s[0]) {
        seq![lower_char(s[0])] + slug_core(s.drop_first(), false)
    } else if !last_dash {
        seq!['-'] + slug_core(s.drop_first(), true)
    } else {
        slug_core(s.drop_first(), true)
    }
}

/// The full slug transform: the slug body with a trailing dash suppressed.
pub open spec fn slug_of(s: Seq<char>) -> Seq<char> {
    let core = slug_core(s, true);
    if core.len() > 0 && core.last() == '-' {
        core.drop_last()
    } else {
        core
    }
}

/// Converts arbitrary text to a URL-friendly slug: lowercased ASCII
/// alphanumerics, with every run of other characters collapsed to a single
/// `-` and no leading or trailing `-`.
pub fn slugify(text: &str) -> (r: String)
    ensures
        r@ == slug_of(text@),
{
    let ghost s = text@;
    let n = text.unicode_len();
    let mut slug = String::new();
    let mut last_dash = true;
    proof {
        assert(s.skip(0) =~= s);
    }
    let mut i: usize = 0;
    while i < n
        invariant
            n == s.len(),
            s == text@,
            i <= n,
            slug@ + slug_core(s.skip(i as int), last_dash) =~= slug_core(s, true),
            last_dash && slug@.len() > 0 ==> slug@.last() == '-',
            !last_dash ==> slug@.len() > 0 && slug@.last() != '-',
        decreases n - i,
    {
        let c = text.get_char(i);
        proof {
            assert(s.skip(i as int)[0] == s[i as int]);
            assert(s.skip(i as int).drop_first() =~= s.skip(i as int + 1));
        }
        if ascii_alnum(c) {
            let l = to_lower(c);
            proof {
                assert(l != '-');
            }
            push_char(&mut slug, l);
            last_dash = false;
        } else if !last_dash {
            push_char(&mut slug, '-');
            last_dash = true;
        }
        proof {
            assert(slug@ + slug_core(s.skip(i as int + 1), last_dash)
                =~= slug_core(s, true));
        }
        i = i + 1;
    }
    proof {
        assert(s.skip(n as int) =~= Seq::<char>::empty());
        assert(slug@ + Seq::<char>::empty() =~= slug@);
        assert(slug@ == slug_core(s, true));
    }
    if last_dash {
        let popped = pop_char(&mut slug);
        match popped {
            Some(ch) => {
                if ch != '-' {
                    push_char(&mut slug, ch);
                    proof {
                        assert(slug@ =~= slug_core(s, true));
                    }
                }
            },
            None => {},
        }
    }
    slug
}

/// Law of the slug: a slug never starts with `-`, never ends with `-`, and
/// never holds two adjacent `-`.
pub proof fn lemma_slug_shape(s: Seq<char>)
    ensures
        slug_of(s).len() > 0 ==> slug_of(s).first() != '-',
        slug_of(s).len() > 0 ==> slug_of(s).last() != '-',
        forall|i: int| 0 < i < slug_of(s).len()
            ==> !(slug_of(s)[i - 1] == '-' && #[trigger] slug_of(s)[i] == '-'),
{
    lemma_slug_core_shape(s, true);
    let core = slug_core(s, true);
    let out = slug_of(s);
    if core.len() > 0 && core.last() == '-' {
        assert(out == core.drop_last());
        assert forall|i: int| 0 < i < out.len()
            implies !(out[i - 1] == '-' && #[trigger] out[i] == '-') by {
            assert(out[i - 1] == core[i - 1] && out[i] == core[i]);
        }
        if out.len() > 0 {
            assert(core[core.len() - 1] == '-');
            assert(!(core[core.len() - 2] == '-' && core[core.len() - 1] == '-'));
            assert(out.last() == core[core.len() - 2]);
        }
    }
}

/// The slug body starts with a dash only if `last_dash` was false, and
/// never holds two adjacent dashes.
proof fn lemma_slug_core_shape(s: Seq<char>, last_dash: bool)
    ensures
        last_dash && slug_core(s, last_dash).len() > 0
            ==> slug_core(s, last_dash).first() != '-',
        forall|i: int| 0 < i < slug_core(s, last_dash).len()
            ==> !(slug_core(s, last_dash)[i - 1] == '-' && #[trigger] slug_core(s, last_dash)[i] == '-'),
    decreases s.len(),
{
    if s.len() > 0 {
        let rest = s.drop_first();
        let core = slug_core(s, last_dash);
        if is_ascii_alnum(s[0]) {
            lemma_slug_core_shape(rest, false);
            let tail = slug_core(rest, false);
            assert(core == seq![lower_char(s[0])] + tail);
            assert(core[0] == lower_char(s[0]));
            assert(core[0] != '-');
            assert forall|i: int| 0 < i < core.len()
                implies !(core[i - 1] == '-' && #[trigger] core[i] == '-') by {
                if i > 1 {
                    assert(core[i - 1] == tail[i - 2] && core[i] == tail[i - 1]);
                }
            }
        } else if !last_dash {
            lemma_slug_core_shape(rest, true);
            let tail = slug_core(rest, true);
            assert(core == seq!['-'] + tail);
            assert forall|i: int| 0 < i < core.len()
                implies !(core[i - 1] == '-' && #[trigger] core[i] == '-') by {
                if i == 1 {
                    assert(core[1] == tail[0]);
                    assert(tail.first() != '-');
                } else {
                    assert(core[i - 1] == tail[i - 2] && core[i] == tail[i - 1]);
                }
            }
        } else {
            lemma_slug_core_shape(rest, true);
            assert(core == slug_core(rest, true));
        }
    }
}

/// Characters allowed in the local part of an email candidate.
pub open spec fn is_local_char(c: char) -> bool {
    is_ascii_alnum(c) || c == '.' || c == '_' || c == '-' || c == '+'
}

/// Characters allowed in the domain part of an email candidate.
pub open spec fn is_domain_char(c: char) -> bool {
    is_ascii_alnum(c) || c == '.' || c == '-'
}

fn local_char(c: char) -> (r: bool)
    ensures
        r == is_local_char(c),
{
    ascii_alnum(c) || c == '.' || c == '_' || c == '-' || c == '+'
}

fn domain_char(c: char) -> (r: bool)
    ensures
        r == is_domain_char(c),
{
    ascii_alnum(c) || c == '.' || c == '-'
}

/// Start of the maximal run of local-part characters ending just before
/// position `i`.
pub open spec fn local_start(s: Seq<char>, i: int) -> int
    decreases i,
{
    if 0 < i <= s.len() && is_local_char(s[i - 1]) {
        local_start(s, i - 1)
    } else {
        i
    }
}

/// End of the maximal run of domain-part characters starting at position
/// `j`.
pub open spec fn domain_end(s: Seq<char>, j: int) -> int
    decreases s.len() - j,
{
    if 0 <= j < s.len() && is_domain_char(s[j]) {
        domain_end(s, j + 1)
    } else {
        j
    }
}

/// `s` holds a `.` somewhere in `[from, to)`.
pub open spec fn has_dot_between(s: Seq<char>, from: int, to: int) -> bool {
    exists|k: int| from <= k < to && s[k] == '.'
}

/// Drops every trailing `.` of `t`.
pub open spec fn trim_dots(t: Seq<char>) -> Seq<char>
    decreases t.len(),
{
    if t.len() > 0 && t.last() == '.' {
        trim_dots(t.drop_last())
    } else {
        t
    }
}

/// The email candidate anchored at position `i`: from an `@` that is
/// neither the first nor the last character, the maximal local-part run
/// before it and the maximal domain-part run after it, accepted only when
/// both runs are non-empty and the domain run holds at least one `.`, with
/// trailing `.` characters trimmed from the accepted match.
pub open spec fn candidate_at(s: Seq<char>, i: int) -> Option<Seq<char>> {
    if 0 < i < s.len() - 1 && s[i] == '@' {
        let st = local_start(s, i);
        let en = domain_end(s, i + 1);
        if st < i && en > i + 1 && has_dot_between(s, i + 1, en) {
            Some(trim_dots(s.subrange(st, en)))
        } else {
            None
        }
    } else {
        None
    }
}

/// The accepted candidates among the first `n` anchor positions, in
/// first-seen order, without duplicates.
pub open spec fn emails_upto(s: Seq<char>, n: int) -> Seq<Seq<char>>
    decreases n,
{
    if n <= 0 {
        Seq::empty()
    } else {
        let prev = emails_upto(s, n - 1);
        match candidate_at(s, n - 1) {
            Some(e) => if prev.contains(e) {
                prev
            } else {
                prev.push(e)
            },
            None => prev,
        }
    }
}

/// All email-like matches of `s`, deduplicated in first-seen order.
pub open spec fn emails_of(s: Seq<char>) -> Seq<Seq<char>> {
    emails_upto(s, s.len() as int)
}

/// Law of extraction: the match list never holds the same entry twice.
pub proof fn lemma_emails_distinct(s: Seq<char>)
    ensures
        forall|a: int, b: int| 0 <= a < b < emails_of(s).len()
            ==> emails_of(s)[a] != emails_of(s)[b],
{
    lemma_emails_upto_distinct(s, s.len() as int);
}

proof fn lemma_emails_upto_distinct(s: Seq<char>, n: int)
    ensures
        forall|a: int, b: int| 0 <= a < b < emails_upto(s, n).len()
            ==> emails_upto(s, n)[a] != emails_upto(s, n)[b],
    decreases n,
{
    if n > 0 {
        lemma_emails_upto_distinct(s, n - 1);
        let prev = emails_upto(s, n - 1);
        let cur = emails_upto(s, n);
        if candidate_at(s, n - 1) matches Some(e) && !prev.contains(e) {
            assert forall|a: int, b: int| 0 <= a < b < cur.len()
                implies cur[a] != cur[b] by {
                if b == cur.len() - 1 {
                    assert(cur[b] == candidate_at(s, n - 1).unwrap());
                    assert(cur[a] == prev[a]);
                    assert(prev.contains(prev[a]));
                }
            }
        }
    }
}

/// Trimming trailing dots of `s[start..end]` keeps exactly `s[start..te]`,
/// where `te` marks the last non-dot character of the range.
proof fn lemma_trim_dots_range(s: Seq<char>, start: int, te: int, end: int)
    requires
        0 <= start <= te <= end <= s.len(),
        forall|t: int| te <= t < end ==> s[t] == '.',
        te > start ==> s[te - 1] != '.',
    ensures
        trim_dots(s.subrange(start, end)) == s.subrange(start, te),
    decreases end - te,
{
    if end > te {
        assert(s.subrange(start, end).last() == s[end - 1]);
        assert(s.subrange(start, end).drop_last() =~= s.subrange(start, end - 1));
        lemma_trim_dots_range(s, start, te, end - 1);
    } else {
        let sub = s.subrange(start, te);
        if sub.len() > 0 {
            assert(sub.last() == s[te - 1]);
        }
    }
}

fn contains_string(v: &Vec<String>, x: &String) -> (r: bool)
    ensures
        r == v@.map_values(|e: String| e@).contains(x@),
{
    let ghost m = v@.map_values(|e: String| e@);
    let mut k: usize = 0;
    while k < v.len()
        invariant
            k <= v@.len(),
            m == v@.map_values(|e: String| e@),
            forall|t: int| 0 <= t < k ==> m[t] != x@,
        decreases v@.len() - k,
    {
        if v[k].eq(x) {
            proof {
                assert(m[k as int] == x@);
            }
            return true;
        }
        k = k + 1;
    }
    false
}

/// Extracts email-like patterns by scanning backward and forward from each
/// `@`; matches are accepted only with a non-empty local part, a non-empty
/// domain and a `.` in the domain run, then trimmed of trailing dots and
/// deduplicated in first-seen order.
pub fn extract_emails(text: &str) -> (r: Vec<String>)
    ensures
        r@.map_values(|e: String| e@) == emails_of(text@),
{
    let ghost s = text@;
    let n = text.unicode_len();
    let mut chars: Vec<char> = Vec::new();
    let mut t: usize = 0;
    while t < n
        invariant
            n == s.len(),
            s == text@,
            t <= n,
            chars@ =~= s.subrange(0, t as int),
        decreases n - t,
    {
        chars.push(text.get_char(t));
        t = t + 1;
    }
    proof {
        assert(chars@ =~= s);
    }
    let mut emails: Vec<String> = Vec::new();
    let mut i: usize = 0;
    while i < n
        invariant
            n == s.len(),
            chars@ == s,
            i <= n,
            emails@.map_values(|e: String| e@) =~= emails_upto(s, i as int),
        decreases n - i,
    {
        if chars[i] == '@' && i > 0 && i < n - 1 {
            // Scan backward over local-part characters.
            let mut start: usize = i;
            while start > 0 && local_char(chars[start - 1])
                invariant
                    chars@ == s,
                    i < n == s.len(),
                    start <= i,
                    local_start(s, i as int) == local_start(s, start as int),
                decreases start,
            {
                start = start - 1;
            }
            proof {
                assert(local_start(s, start as int) == start as int);
            }
            // Scan forward over domain-part characters.
            let mut end: usize = i + 1;
            let mut has_dot = false;
            while end < n && domain_char(chars[end])
                invariant
                    chars@ == s,
                    i + 1 <= end <= n == s.len(),
                    domain_end(s, i as int + 1) == domain_end(s, end as int),
                    has_dot == has_dot_between(s, i as int + 1, end as int),
                decreases n - end,
            {
                let ghost before = end as int;
                if chars[end] == '.' {
                    has_dot = true;
                }
                end = end + 1;
                proof {
                    if s[before] == '.' {
                        assert(has_dot_between(s, i as int + 1, end as int));
                    } else {
                        assert(has_dot_between(s, i as int + 1, end as int)
                            == has_dot_between(s, i as int + 1, before));
                    }
                }
            }
            proof {
                assert(domain_end(s, end as int) == end as int);
            }
            if start < i && end > i + 1 && has_dot {
                // Trim trailing dots from the domain end.
                let mut te: usize = end;
                while te > start && chars[te - 1] == '.'
                    invariant
                        chars@ == s,
                        start <= te <= end <= s.len(),
                        forall|u: int| te <= u < end ==> s[u] == '.',
                    decreases te,
                {
                    te = te - 1;
                }
                let mut email = String::new();
                let mut p: usize = start;
                while p < te
                    invariant
                        chars@ == s,
                        start <= p <= te <= s.len(),
                        email@ =~= s.subrange(start as int, p as int),
                    decreases te - p,
                {
                    push_char(&mut email, chars[p]);
                    p = p + 1;
                }
                proof {
                    assert(email@ =~= s.subrange(start as int, te as int));
                    lemma_trim_dots_range(s, start as int, te as int, end as int);
                    assert(candidate_at(s, i as int) == Some(email@));
                }
                if !contains_string(&emails, &email) {
                    emails.push(email);
                    proof {
                        assert(emails@.map_values(|e: String| e@)
                            =~= emails_upto(s, i as int).push(
                                candidate_at(s, i as int).unwrap(),
                            ));
                    }
                }
            } else {
                proof {
                    assert(candidate_at(s, i as int) is None);
                }
            }
        } else {
            proof {
                assert(candidate_at(s, i as int) is None);
            }
        }
        proof {
            assert(emails@.map_values(|e: String| e@) =~= emails_upto(s, i as int + 1));
        }
        i = i + 1;
    }
    proof {
        assert(emails@.map_values(|e: String| e@) =~= emails_of(s));
    }
    emails
}

} // verus!
