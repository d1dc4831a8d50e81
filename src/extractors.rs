//! Pattern-based extraction of phone numbers, e-mail addresses and IP
//! addresses, with the normalisation that makes them comparable.
use vstd::prelude::*;
use crate::text::{is_digit, lower_of, string_of, to_lower};
use vstd::string::StrSliceExecFns;
use vstd::string::StringExecFns;

verus! {

/// For each successive match of `pattern` in `text`, the capture groups of the
/// match (group 0, the whole match, first); `None` when `pattern` does not compile.
pub uninterp spec fn regex_captures(pattern: Seq<char>, text: Seq<char>) -> Option<Seq<Seq<Option<Seq<char>>>>>;

/// The texts of the successive matches of `pattern` in `text`; `None` when
/// `pattern` does not compile.
pub uninterp spec fn regex_matches(pattern: Seq<char>, text: Seq<char>) -> Option<Seq<Seq<char>>>;

/// Relies on `regex::Regex::new` and `Regex::captures_iter`: the capture
/// groups of every match, in order.
#[verifier::external_body]
fn captures_all(pattern: &str, text: &str) -> (r: Option<Vec<Vec<Option<String>>>>)
    ensures
        r.deep_view() == regex_captures(pattern@, text@),
{
    let re = regex::Regex::new(pattern).ok()?;
    Some(re.captures_iter(text).map(|c| {
        c.iter().map(|g| g.map(|m| m.as_str().to_string())).collect()
    }).collect())
}

/// Relies on `regex::Regex::new` and `Regex::find_iter`: the text of every
/// match, in order.
#[verifier::external_body]
fn find_all(pattern: &str, text: &str) -> (r: Option<Vec<String>>)
    ensures
        r.deep_view() == regex_matches(pattern@, text@),
{
    let re = regex::Regex::new(pattern).ok()?;
    Some(re.find_iter(text).map(|m| m.as_str().to_string()).collect())
}

/// The decimal digits of `s`, in order.
pub open spec fn digits_of(s: Seq<char>) -> Seq<char>
    decreases s.len(),
{
    if s.len() == 0 {
        Seq::empty()
    } else if is_digit(s.last()) {
        digits_of(s.drop_last()).push(s.last())
    } else {
        digits_of(s.drop_last())
    }
}

/// The canonical form of a phone number: its digits, without a leading
/// country code `1` when there are eleven of them.
pub open spec fn normalized_phone(s: Seq<char>) -> Seq<char> {
    let d = digits_of(s);
    if d.len() == 11 && d[0] == '1' {
        d.drop_first()
    } else {
        d
    }
}

/// A digit string that can be a phone number: ten digits, or eleven with a
/// leading `1`.
pub open spec fn is_phone_length(p: Seq<char>) -> bool {
    p.len() == 10 || (p.len() == 11 && p[0] == '1')
}

/// The concatenation of the groups that took part in a match.
pub open spec fn present_concat(groups: Seq<Option<Seq<char>>>) -> Seq<char>
    decreases groups.len(),
{
    if groups.len() == 0 {
        Seq::empty()
    } else {
        present_concat(groups.drop_last()) + match groups.last() {
            Some(g) => g,
            None => Seq::empty(),
        }
    }
}

/// The phone number that one match yields, if any: its capture groups (all
/// but the whole match) joined, kept when of a phone's length, normalised.
pub open spec fn phone_of_match(groups: Seq<Option<Seq<char>>>) -> Option<Seq<char>> {
    if groups.len() == 0 {
        None
    } else {
        let p = present_concat(groups.subrange(1, groups.len() as int));
        if is_phone_length(p) {
            Some(normalized_phone(p))
        } else {
            None
        }
    }
}

/// Whether some match of `caps` yields phone number `v`.
pub open spec fn phone_in_captures(caps: Seq<Seq<Option<Seq<char>>>>, v: Seq<char>) -> bool {
    exists|i: int| 0 <= i < caps.len() && phone_of_match(#[trigger] caps[i]) == Some(v)
}

/// Whether some match in `ms` lower-cases to `v`.
pub open spec fn lowered_in_matches(ms: Seq<Seq<char>>, v: Seq<char>) -> bool {
    exists|i: int| 0 <= i < ms.len() && lower_of(#[trigger] ms[i]) == v
}

/// Normalisation leaves a normalised phone number as it is.
pub proof fn lemma_normalize_idempotent(s: Seq<char>)
    ensures
        normalized_phone(normalized_phone(s)) == normalized_phone(s),
{
    let d = digits_of(s);
    lemma_digits_all_digits(s);
    lemma_digits_of_digits(d);
    if d.len() == 11 && d[0] == '1' {
        let t = d.drop_first();
        assert forall|i: int| 0 <= i < t.len() implies is_digit(t[i]) by {
            assert(t[i] == d[i + 1]);
        }
        lemma_digits_of_digits(t);
    }
}

/// Every character of `digits_of(s)` is a digit.
pub proof fn lemma_digits_all_digits(s: Seq<char>)
    ensures
        forall|i: int| 0 <= i < digits_of(s).len() ==> is_digit(#[trigger] digits_of(s)[i]),
    decreases s.len(),
{
    if s.len() > 0 {
        let p = digits_of(s.drop_last());
        lemma_digits_all_digits(s.drop_last());
        assert forall|i: int| 0 <= i < digits_of(s).len() implies is_digit(#[trigger] digits_of(s)[i]) by {
            if !(is_digit(s.last()) && i == p.len()) {
                assert(digits_of(s)[i] == p[i]);
            }
        }
    }
}

/// A sequence of digits is its own digit sequence.
pub proof fn lemma_digits_of_digits(s: Seq<char>)
    requires
        forall|i: int| 0 <= i < s.len() ==> is_digit(#[trigger] s[i]),
    ensures
        digits_of(s) == s,
    decreases s.len(),
{
    if s.len() > 0 {
        lemma_digits_of_digits(s.drop_last());
        assert(s.drop_last().push(s.last()) =~= s);
    }
}

/// Adds `s` to `out` unless a string with the same characters is already there.
pub fn push_unique(out: &mut Vec<String>, s: String)
    requires
        old(out).deep_view().no_duplicates(),
    ensures
        final(out).deep_view().no_duplicates(),
        forall|v: Seq<char>| #[trigger] final(out).deep_view().contains(v) <==> (old(out).deep_view().contains(v) || v == s@),
{
    let mut i: usize = 0;
    while i < out.len()
        invariant
            i <= out.len(),
            *out == *old(out),
            old(out).deep_view().no_duplicates(),
            forall|j: int| 0 <= j < i ==> out.deep_view()[j] != s@,
        decreases out.len() - i,
    {
        if out[i] == s {
            proof {
                assert(out.deep_view()[i as int] == s@);
            }
            return;
        }
        i = i + 1;
    }
    let ghost before = out.deep_view();
    out.push(s);
    proof {
        assert(out.deep_view() =~= before.push(s@));
        assert forall|v: Seq<char>| #[trigger] out.deep_view().contains(v) <==> (before.contains(v) || v == s@) by {
            if v == s@ {
                assert(out.deep_view()[before.len() as int] == v);
            }
            if out.deep_view().contains(v) && v != s@ {
                let k = choose|k: int| 0 <= k < out.deep_view().len() && out.deep_view()[k] == v;
                assert(before[k] == v);
            }
            if before.contains(v) {
                let k = choose|k: int| 0 <= k < before.len() && before[k] == v;
                assert(out.deep_view()[k] == v);
            }
        }
    }
}

/// The canonical form of a phone number (see `normalized_phone`).
pub fn normalize_phone(phone: &str) -> (r: String)
    ensures
        r@ == normalized_phone(phone@),
{
    let cs = crate::text::chars_of(phone);
    let mut d: Vec<char> = Vec::new();
    let mut i: usize = 0;
    while i < cs.len()
        invariant
            i <= cs.len(),
            cs@ == phone@,
            d@ == digits_of(cs@.subrange(0, i as int)),
        decreases cs.len() - i,
    {
        assert(cs@.subrange(0, i + 1).drop_last() =~= cs@.subrange(0, i as int));
        let c = cs[i];
        if '0' <= c && c <= '9' {
            d.push(c);
        }
        i = i + 1;
    }
    assert(cs@.subrange(0, cs.len() as int) =~= cs@);
    if d.len() == 11 && d[0] == '1' {
        let mut t: Vec<char> = Vec::new();
        let mut k: usize = 1;
        while k < d.len()
            invariant
                1 <= k <= d.len(),
                t@ == d@.subrange(1, k as int),
            decreases d.len() - k,
        {
            t.push(d[k]);
            k = k + 1;
        }
        assert(t@ =~= d@.drop_first());
        string_of(&t)
    } else {
        string_of(&d)
    }
}

/// The phone number that one match yields, if any (see `phone_of_match`).
pub fn phone_from_match(groups: &Vec<Option<String>>) -> (r: Option<String>)
    ensures
        r.deep_view() == phone_of_match(groups.deep_view()),
{
    if groups.len() == 0 {
        return None;
    }
    let ghost gs = groups.deep_view();
    let mut p = String::new();
    let mut j: usize = 1;
    while j < groups.len()
        invariant
            1 <= j <= groups.len(),
            gs == groups.deep_view(),
            p@ == present_concat(gs.subrange(1, j as int)),
        decreases groups.len() - j,
    {
        assert(gs.subrange(1, j + 1).drop_last() =~= gs.subrange(1, j as int));
        match &groups[j] {
            Some(g) => {
                p.append(g.as_str());
            },
            None => {},
        }
        j = j + 1;
    }
    let n = p.as_str().unicode_len();
    if n == 10 || (n == 11 && p.as_str().get_char(0) == '1') {
        Some(normalize_phone(p.as_str()))
    } else {
        None
    }
}

/// Adds to `out` the phone numbers that the matches `caps` yield, each once.
pub fn collect_phones(out: &mut Vec<String>, caps: &Vec<Vec<Option<String>>>)
    requires
        old(out).deep_view().no_duplicates(),
    ensures
        final(out).deep_view().no_duplicates(),
        forall|v: Seq<char>| #[trigger] final(out).deep_view().contains(v) <==> (old(out).deep_view().contains(v)
            || phone_in_captures(caps.deep_view(), v)),
{
    let ghost cs = caps.deep_view();
    let ghost start = out.deep_view();
    let mut i: usize = 0;
    while i < caps.len()
        invariant
            i <= caps.len(),
            cs == caps.deep_view(),
            out.deep_view().no_duplicates(),
            forall|v: Seq<char>| #[trigger] out.deep_view().contains(v) <==> (start.contains(v)
                || exists|k: int| 0 <= k < i && phone_of_match(#[trigger] cs[k]) == Some(v)),
        decreases caps.len() - i,
    {
        let found = phone_from_match(&caps[i]);
        let ghost before = out.deep_view();
        assert(cs[i as int] == caps[i as int].deep_view());
        match found {
            Some(ph) => {
                push_unique(out, ph);
            },
            None => {},
        }
        assert forall|v: Seq<char>| #[trigger] out.deep_view().contains(v) <==> (start.contains(v)
            || exists|k: int| 0 <= k < i + 1 && phone_of_match(#[trigger] cs[k]) == Some(v)) by {
            if exists|k: int| 0 <= k < i + 1 && phone_of_match(#[trigger] cs[k]) == Some(v) {
                let k = choose|k: int| 0 <= k < i + 1 && phone_of_match(#[trigger] cs[k]) == Some(v);
                if k < i {
                    assert(before.contains(v));
                }
            }
            if found is Some && v == found->Some_0@ {
                assert(phone_of_match(cs[i as int]) == Some(v));
            }
        }
        i = i + 1;
    }
    assert(cs.len() == caps.len());
}

/// Adds to `out` the lower-cased form of each match in `ms`, each once.
pub fn collect_lowered(out: &mut Vec<String>, ms: &Vec<String>)
    requires
        old(out).deep_view().no_duplicates(),
    ensures
        final(out).deep_view().no_duplicates(),
        forall|v: Seq<char>| #[trigger] final(out).deep_view().contains(v) <==> (old(out).deep_view().contains(v)
            || lowered_in_matches(ms.deep_view(), v)),
{
    let ghost m = ms.deep_view();
    let ghost start = out.deep_view();
    let mut i: usize = 0;
    while i < ms.len()
        invariant
            i <= ms.len(),
            m == ms.deep_view(),
            out.deep_view().no_duplicates(),
            forall|v: Seq<char>| #[trigger] out.deep_view().contains(v) <==> (start.contains(v)
                || exists|k: int| 0 <= k < i && lower_of(#[trigger] m[k]) == v),
        decreases ms.len() - i,
    {
        let low = to_lower(ms[i].as_str());
        let ghost before = out.deep_view();
        push_unique(out, low);
        assert forall|v: Seq<char>| #[trigger] out.deep_view().contains(v) <==> (start.contains(v)
            || exists|k: int| 0 <= k < i + 1 && lower_of(#[trigger] m[k]) == v) by {
            if exists|k: int| 0 <= k < i + 1 && lower_of(#[trigger] m[k]) == v {
                let k = choose|k: int| 0 <= k < i + 1 && lower_of(#[trigger] m[k]) == v;
                if k < i {
                    assert(before.contains(v));
                }
            }
            if v == low@ {
                assert(lower_of(m[i as int]) == v);
            }
        }
        i = i + 1;
    }
    assert(m.len() == ms.len());
    assert forall|v: Seq<char>| #[trigger] out.deep_view().contains(v) <==> (start.contains(v)
        || lowered_in_matches(m, v)) by {
        if lowered_in_matches(m, v) {
            let k = choose|k: int| 0 <= k < m.len() && lower_of(#[trigger] m[k]) == v;
            assert(0 <= k < i);
        }
        if out.deep_view().contains(v) && !start.contains(v) {
            assert(exists|k: int| 0 <= k < i && lower_of(#[trigger] m[k]) == v);
            let k = choose|k: int| 0 <= k < i && lower_of(#[trigger] m[k]) == v;
            assert(0 <= k < m.len() && lower_of(m[k]) == v);
        }
    }
}

/// Adds to `out` each match in `ms`, each once.
pub fn collect_matches(out: &mut Vec<String>, ms: &Vec<String>)
    requires
        old(out).deep_view().no_duplicates(),
    ensures
        final(out).deep_view().no_duplicates(),
        forall|v: Seq<char>| #[trigger] final(out).deep_view().contains(v) <==> (old(out).deep_view().contains(v)
            || ms.deep_view().contains(v)),
{
    let ghost m = ms.deep_view();
    let ghost start = out.deep_view();
    let mut i: usize = 0;
    while i < ms.len()
        invariant
            i <= ms.len(),
            m == ms.deep_view(),
            out.deep_view().no_duplicates(),
            forall|v: Seq<char>| #[trigger] out.deep_view().contains(v) <==> (start.contains(v)
                || m.subrange(0, i as int).contains(v)),
        decreases ms.len() - i,
    {
        let ghost before = out.deep_view();
        push_unique(out, ms[i].clone());
        assert forall|v: Seq<char>| #[trigger] out.deep_view().contains(v) <==> (start.contains(v)
            || m.subrange(0, i + 1).contains(v)) by {
            if m.subrange(0, i + 1).contains(v) {
                let k = choose|k: int| 0 <= k < i + 1 && #[trigger] m.subrange(0, i + 1)[k] == v;
                if k < i {
                    assert(m.subrange(0, i as int)[k] == v);
                }
            }
            if m.subrange(0, i as int).contains(v) {
                let k = choose|k: int| 0 <= k < i && #[trigger] m.subrange(0, i as int)[k] == v;
                assert(m.subrange(0, i + 1)[k] == v);
            }
            if v == m[i as int] {
                assert(m.subrange(0, i + 1)[i as int] == v);
            }
        }
        i = i + 1;
    }
    assert(m.subrange(0, ms.len() as int) =~= m);
}

/// Phone number written with an optional country code and a parenthesised
/// or plain area code.
pub const PHONE_PARENTHESIZED: &'static str = r"\b1?[-.\s]?\(?([0-9]{3})\)?[-.\s]?([0-9]{3})[-.\s]?([0-9]{4})\b";

/// Phone number written as one run of ten or eleven digits.
pub const PHONE_CONCATENATED: &'static str = r"\b1?([0-9]{3})([0-9]{3})([0-9]{4})\b";

/// Phone number written as three punctuation-separated groups.
pub const PHONE_SEPARATED: &'static str = r"\b([0-9]{3})[-.\s]([0-9]{3})[-.\s]([0-9]{4})\b";

/// E-mail address: local part, `@`, domain, and a top-level domain of two or more letters.
pub const EMAIL: &'static str = r"\b[A-Za-z0-9._%+-]+@[A-Za-z0-9.-]+\.[A-Za-z]{2,}\b";

/// IPv4 address: four dot-separated octets, each 0 to 255.
pub const IPV4: &'static str = r"\b(?:(?:25[0-5]|2[0-4][0-9]|[01]?[0-9][0-9]?)\.){3}(?:25[0-5]|2[0-4][0-9]|[01]?[0-9][0-9]?)\b";

/// IPv6 address in full form: eight colon-separated groups of one to four hex digits.
pub const IPV6: &'static str = r"\b(?:[A-Fa-f0-9]{1,4}:){7}[A-Fa-f0-9]{1,4}\b";

/// The patterns that the three entity extractors run.
pub struct Extractors {
    pub phone_patterns: Vec<String>,
    pub email_pattern: String,
    pub ipv4_pattern: String,
    pub ipv6_pattern: String,
}

impl Extractors {
    /// The extractors for phone numbers, e-mail and IP addresses.
    pub fn new() -> (r: Self)
        ensures
            r.phone_patterns.deep_view() == seq![PHONE_PARENTHESIZED@, PHONE_CONCATENATED@, PHONE_SEPARATED@],
            r.email_pattern@ == EMAIL@,
            r.ipv4_pattern@ == IPV4@,
            r.ipv6_pattern@ == IPV6@,
    {
        let phone_patterns = vec![
            String::from_str(PHONE_PARENTHESIZED),
            String::from_str(PHONE_CONCATENATED),
            String::from_str(PHONE_SEPARATED),
        ];
        assert(phone_patterns.deep_view() =~= seq![PHONE_PARENTHESIZED@, PHONE_CONCATENATED@, PHONE_SEPARATED@]);
        Extractors {
            phone_patterns,
            email_pattern: String::from_str(EMAIL),
            ipv4_pattern: String::from_str(IPV4),
            ipv6_pattern: String::from_str(IPV6),
        }
    }

    /// The distinct normalised phone numbers that any phone pattern finds in `text`.
    pub fn extract_phones(&self, text: &str) -> (r: Vec<String>)
        ensures
            r.deep_view().no_duplicates(),
            forall|v: Seq<char>| #[trigger] r.deep_view().contains(v) <==> exists|k: int|
                0 <= k < self.phone_patterns.len() && phone_found(self.phone_patterns[k]@, text@, v),
    {
        let mut out: Vec<String> = Vec::new();
        let mut k: usize = 0;
        while k < self.phone_patterns.len()
            invariant
                k <= self.phone_patterns.len(),
                out.deep_view().no_duplicates(),
                forall|v: Seq<char>| #[trigger] out.deep_view().contains(v) <==> exists|j: int|
                    0 <= j < k && phone_found(self.phone_patterns[j]@, text@, v),
            decreases self.phone_patterns.len() - k,
        {
            let ghost before = out.deep_view();
            match captures_all(self.phone_patterns[k].as_str(), text) {
                Some(caps) => {
                    collect_phones(&mut out, &caps);
                },
                None => {},
            }
            assert forall|v: Seq<char>| #[trigger] out.deep_view().contains(v) <==> exists|j: int|
                0 <= j < k + 1 && phone_found(self.phone_patterns[j]@, text@, v) by {
                if exists|j: int| 0 <= j < k + 1 && phone_found(self.phone_patterns[j]@, text@, v) {
                    let j = choose|j: int| 0 <= j < k + 1 && phone_found(self.phone_patterns[j]@, text@, v);
                    if j < k {
                        assert(before.contains(v));
                    }
                }
                if out.deep_view().contains(v) && !before.contains(v) {
                    assert(phone_found(self.phone_patterns[k as int]@, text@, v));
                }
            }
            k = k + 1;
        }
        out
    }

    /// The distinct lower-cased e-mail addresses found in `text`.
    pub fn extract_emails(&self, text: &str) -> (r: Vec<String>)
        ensures
            r.deep_view().no_duplicates(),
            forall|v: Seq<char>| #[trigger] r.deep_view().contains(v) <==> match regex_matches(self.email_pattern@, text@) {
                Some(ms) => lowered_in_matches(ms, v),
                None => false,
            },
    {
        let mut out: Vec<String> = Vec::new();
        match find_all(self.email_pattern.as_str(), text) {
            Some(ms) => {
                collect_lowered(&mut out, &ms);
            },
            None => {},
        }
        out
    }

    /// The distinct IPv4 and IPv6 addresses found in `text`, as written there.
    pub fn extract_ips(&self, text: &str) -> (r: Vec<String>)
        ensures
            r.deep_view().no_duplicates(),
            forall|v: Seq<char>| #[trigger] r.deep_view().contains(v) <==> (
                match_found(self.ipv4_pattern@, text@, v) || match_found(self.ipv6_pattern@, text@, v)),
    {
        let mut out: Vec<String> = Vec::new();
        match find_all(self.ipv4_pattern.as_str(), text) {
            Some(ms) => {
                collect_matches(&mut out, &ms);
            },
            None => {},
        }
        match find_all(self.ipv6_pattern.as_str(), text) {
            Some(ms) => {
                collect_matches(&mut out, &ms);
            },
            None => {},
        }
        out
    }
}

/// Whether a match of `pattern` in `text` yields phone number `v`.
pub open spec fn phone_found(pattern: Seq<char>, text: Seq<char>, v: Seq<char>) -> bool {
    match regex_captures(pattern, text) {
        Some(caps) => phone_in_captures(caps, v),
        None => false,
    }
}

/// Whether `v` is the text of a match of `pattern` in `text`.
pub open spec fn match_found(pattern: Seq<char>, text: Seq<char>, v: Seq<char>) -> bool {
    match regex_matches(pattern, text) {
        Some(ms) => ms.contains(v),
        None => false,
    }
}

} // verus!
