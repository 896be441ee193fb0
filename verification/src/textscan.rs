use vstd::prelude::*;

verus! {

// ---------------------------------------------------------------------------
// Occurrences of a pattern inside a text
// ---------------------------------------------------------------------------
/// `pat` occurs in `t` starting at index `i`.
pub open spec fn occurs_at(t: Seq<char>, pat: Seq<char>, i: int) -> bool {
    0 <= i && i + pat.len() <= t.len() && t.subrange(i, i + pat.len()) == pat
}

/// `pat` occurs somewhere in `t`.
pub open spec fn occurs(t: Seq<char>, pat: Seq<char>) -> bool
    decreases t.len(),
{
    occurs_at(t, pat, 0) || (t.len() > 0 && occurs(t.drop_first(), pat))
}

/// Index of the first occurrence of `pat` in `t`; meaningful only when
/// `occurs(t, pat)`.
pub open spec fn first_occurrence(t: Seq<char>, pat: Seq<char>) -> int
    decreases t.len(),
{
    if occurs_at(t, pat, 0) {
        0
    } else if t.len() == 0 {
        0
    } else {
        1 + first_occurrence(t.drop_first(), pat)
    }
}

/// The text strictly before the first occurrence of `pat`.
pub open spec fn before_first(t: Seq<char>, pat: Seq<char>) -> Seq<char> {
    t.subrange(0, first_occurrence(t, pat))
}

/// The text strictly after the end of the first occurrence of `pat`.
pub open spec fn after_first(t: Seq<char>, pat: Seq<char>) -> Seq<char> {
    t.subrange(first_occurrence(t, pat) + pat.len(), t.len() as int)
}

/// The text after the first occurrence of `a`, up to the next occurrence of
/// `b`; nothing when either pattern is missing.
pub open spec fn between_first(t: Seq<char>, a: Seq<char>, b: Seq<char>) -> Option<Seq<char>> {
    if occurs(t, a) {
        let rest = after_first(t, a);
        if occurs(rest, b) {
            Some(before_first(rest, b))
        } else {
            None
        }
    } else {
        None
    }
}

proof fn lemma_occurs_at_shift(t: Seq<char>, pat: Seq<char>, i: int)
    requires
        t.len() > 0,
        0 <= i,
    ensures
        occurs_at(t.drop_first(), pat, i) == occurs_at(t, pat, i + 1),
{
    if i + 1 + pat.len() <= t.len() {
        assert(t.drop_first().subrange(i, i + pat.len()) =~= t.subrange(i + 1, i + 1 + pat.len()));
    }
}

/// `occurs` agrees with the existence of an occurrence position.
pub proof fn lemma_occurs_exists(t: Seq<char>, pat: Seq<char>)
    ensures
        occurs(t, pat) <==> exists|i: int| occurs_at(t, pat, i),
    decreases t.len(),
{
    if t.len() > 0 {
        lemma_occurs_exists(t.drop_first(), pat);
        assert forall|i: int| 0 <= i implies occurs_at(t.drop_first(), pat, i) == occurs_at(
            t,
            pat,
            i + 1,
        ) by {
            lemma_occurs_at_shift(t, pat, i);
        }
        if occurs(t, pat) {
            if !occurs_at(t, pat, 0) {
                let j = choose|j: int| occurs_at(t.drop_first(), pat, j);
                assert(occurs_at(t, pat, j + 1));
            }
        }
        if exists|i: int| occurs_at(t, pat, i) {
            let i = choose|i: int| occurs_at(t, pat, i);
            if i > 0 {
                assert(occurs_at(t.drop_first(), pat, i - 1));
            }
        }
    }
}

/// The first occurrence really is one, and no earlier position is.
pub proof fn lemma_first_occurrence_is_first(t: Seq<char>, pat: Seq<char>)
    requires
        occurs(t, pat),
    ensures
        occurs_at(t, pat, first_occurrence(t, pat)),
        forall|j: int| 0 <= j < first_occurrence(t, pat) ==> !occurs_at(t, pat, j),
    decreases t.len(),
{
    if !occurs_at(t, pat, 0) {
        let rest = t.drop_first();
        lemma_first_occurrence_is_first(rest, pat);
        let f = first_occurrence(rest, pat);
        lemma_occurs_at_shift(t, pat, f);
        assert forall|j: int| 0 <= j < f + 1 implies !occurs_at(t, pat, j) by {
            if j > 0 {
                lemma_occurs_at_shift(t, pat, j - 1);
            }
        }
    }
}

// ---------------------------------------------------------------------------
// Trusted views of the text-extraction helpers
// ---------------------------------------------------------------------------
/// Relies on `string_tools::get_all_before_strict`: the part of `text` before
/// the first occurrence of `pat`, or nothing when `pat` does not occur.
#[verifier::external_body]
pub(crate) fn get_all_before_strict<'a>(text: &'a str, pat: &str) -> (r: Option<&'a str>)
    ensures
        r is Some <==> occurs(text@, pat@),
        r matches Some(s) ==> s@ == before_first(text@, pat@),
{
    string_tools::get_all_before_strict(text, pat)
}

/// Relies on `string_tools::get_all_after_strict`: the part of `text` after
/// the end of the first occurrence of `pat`, or nothing when `pat` does not
/// occur.
#[verifier::external_body]
pub(crate) fn get_all_after_strict<'a>(text: &'a str, pat: &str) -> (r: Option<&'a str>)
    ensures
        r is Some <==> occurs(text@, pat@),
        r matches Some(s) ==> s@ == after_first(text@, pat@),
{
    string_tools::get_all_after_strict(text, pat)
}

/// Relies on `string_tools::get_all_between_strict`: the part of `text`
/// after the first occurrence of `begin` and before the next occurrence of
/// `end`, or nothing when either is missing.
#[verifier::external_body]
pub(crate) fn get_all_between_strict<'a>(text: &'a str, begin: &str, end: &str) -> (r: Option<&'a str>)
    ensures
        r is Some <==> between_first(text@, begin@, end@) is Some,
        r matches Some(s) ==> Some(s@) == between_first(text@, begin@, end@),
{
    string_tools::get_all_between_strict(text, begin, end)
}

// ---------------------------------------------------------------------------
// Whitespace trimming
// ---------------------------------------------------------------------------
/// The whitespace the probe output can carry.
pub open spec fn is_ws(c: char) -> bool {
    c == ' ' || c == '\t' || c == '\n' || c == '\r'
}

pub open spec fn trim_front(s: Seq<char>) -> Seq<char>
    decreases s.len(),
{
    if s.len() > 0 && is_ws(s[0]) {
        trim_front(s.drop_first())
    } else {
        s
    }
}

pub open spec fn trim_back(s: Seq<char>) -> Seq<char>
    decreases s.len(),
{
    if s.len() > 0 && is_ws(s.last()) {
        trim_back(s.drop_last())
    } else {
        s
    }
}

/// `s` with leading and trailing whitespace removed.
pub open spec fn trim_spec(s: Seq<char>) -> Seq<char> {
    trim_back(trim_front(s))
}

proof fn lemma_trim_front_skip(s: Seq<char>, k: int)
    requires
        0 <= k <= s.len(),
        forall|i: int| 0 <= i < k ==> is_ws(s[i]),
        k == s.len() || !is_ws(s[k]),
    ensures
        trim_front(s) == s.skip(k),
    decreases k,
{
    if k == 0 {
        assert(s.skip(0) =~= s);
    } else {
        let rest = s.drop_first();
        lemma_trim_front_skip(rest, k - 1);
        assert(rest.skip(k - 1) =~= s.skip(k));
    }
}

proof fn lemma_trim_back_take(s: Seq<char>, k: int)
    requires
        0 <= k <= s.len(),
        forall|i: int| k <= i < s.len() ==> is_ws(s[i]),
        k == 0 || !is_ws(s[k - 1]),
    ensures
        trim_back(s) == s.take(k),
    decreases s.len() - k,
{
    if k == s.len() {
        assert(s.take(k) =~= s);
    } else {
        let head = s.drop_last();
        lemma_trim_back_take(head, k);
        assert(head.take(k) =~= s.take(k));
    }
}

fn is_ws_char(c: char) -> (r: bool)
    ensures
        r == is_ws(c),
{
    c == ' ' || c == '\t' || c == '\n' || c == '\r'
}

/// `s` without its leading and trailing whitespace.
pub fn trim_ws<'a>(s: &'a str) -> (r: &'a str)
    ensures
        r@ == trim_spec(s@),
{
    let n = s.unicode_len();
    let mut start: usize = 0;
    while start < n && is_ws_char(s.get_char(start))
        invariant
            0 <= start <= n == s@.len(),
            forall|i: int| 0 <= i < start ==> is_ws(s@[i]),
        decreases n - start,
    {
        start = start + 1;
    }
    proof {
        lemma_trim_front_skip(s@, start as int);
    }
    let mut end: usize = n;
    while end > start && is_ws_char(s.get_char(end - 1))
        invariant
            start <= end <= n == s@.len(),
            forall|i: int| 0 <= i < start ==> is_ws(s@[i]),
            start == n || !is_ws(s@[start as int]),
            forall|i: int| end <= i < n ==> is_ws(s@[i]),
        decreases end,
    {
        end = end - 1;
    }
    proof {
        let front = s@.skip(start as int);
        assert(forall|i: int| end - start <= i < front.len() ==> is_ws(front[i]));
        lemma_trim_back_take(front, end - start);
        assert(front.take(end - start) =~= s@.subrange(start as int, end as int));
    }
    s.substring_char(start, end)
}

// ---------------------------------------------------------------------------
// Decimal fields
// ---------------------------------------------------------------------------
pub open spec fn is_digit(c: char) -> bool {
    48 <= c as u32 <= 57
}

pub open spec fn digit_val(c: char) -> int {
    c as u32 - 48
}

pub open spec fn all_digits(s: Seq<char>) -> bool {
    forall|i: int| 0 <= i < s.len() ==> is_digit(s[i])
}

/// Value of a string of decimal digits, most significant first.
pub open spec fn digits_value(s: Seq<char>) -> int
    decreases s.len(),
{
    if s.len() == 0 {
        0
    } else {
        digits_value(s.drop_last()) * 10 + digit_val(s.last())
    }
}

/// What parsing a decimal field yields: the value of a non-empty all-digit
/// string when it fits in a `u64`, nothing otherwise.
pub open spec fn parse_u64_spec(s: Seq<char>) -> Option<u64> {
    if s.len() > 0 && all_digits(s) && digits_value(s) <= u64::MAX {
        Some(digits_value(s) as u64)
    } else {
        None
    }
}

proof fn lemma_digits_value_nonneg(s: Seq<char>)
    requires
        all_digits(s),
    ensures
        digits_value(s) >= 0,
    decreases s.len(),
{
    if s.len() > 0 {
        assert(all_digits(s.drop_last()));
        lemma_digits_value_nonneg(s.drop_last());
    }
}

/// Extending a digit string never shrinks its value.
proof fn lemma_digits_value_prefix(s: Seq<char>, k: int)
    requires
        all_digits(s),
        0 <= k <= s.len(),
    ensures
        digits_value(s.take(k)) <= digits_value(s),
    decreases s.len() - k,
{
    assert(forall|j: int| 0 <= j <= s.len() ==> all_digits(s.take(j)));
    if k < s.len() {
        lemma_digits_value_prefix(s, k + 1);
        assert(s.take(k + 1).drop_last() =~= s.take(k));
        assert(s.take(k + 1).last() == s[k]);
        lemma_digits_value_nonneg(s.take(k));
    } else {
        assert(s.take(k) =~= s);
    }
}

/// Parse a non-empty decimal digit string into a `u64`; anything else,
/// including overflow, yields nothing.
pub fn parse_u64(s: &str) -> (r: Option<u64>)
    ensures
        r == parse_u64_spec(s@),
{
    let n = s.unicode_len();
    if n == 0 {
        return None;
    }
    let mut acc: u64 = 0;
    let mut i: usize = 0;
    proof {
        assert(s@.take(0) =~= Seq::<char>::empty());
    }
    while i < n
        invariant
            0 <= i <= n == s@.len(),
            all_digits(s@.take(i as int)),
            acc == digits_value(s@.take(i as int)),
        decreases n - i,
    {
        let c = s.get_char(i);
        let v = c as u32;
        if v < 48 || v > 57 {
            assert(!is_digit(s@[i as int]));
            return None;
        }
        let d = (v - 48) as u64;
        let limit = (u64::MAX - d) / 10;
        proof {
            assert(s@.take(i as int + 1).drop_last() =~= s@.take(i as int));
            assert(s@.take(i as int + 1).last() == s@[i as int]);
            vstd::arithmetic::div_mod::lemma_fundamental_div_mod((u64::MAX - d) as int, 10);
        }
        if acc > limit {
            proof {
                assert(digits_value(s@.take(i as int + 1)) > u64::MAX);
                if all_digits(s@) {
                    lemma_digits_value_prefix(s@, i as int + 1);
                }
            }
            return None;
        }
        acc = acc * 10 + d;
        i = i + 1;
    }
    proof {
        assert(s@.take(n as int) =~= s@);
    }
    Some(acc)
}

// ---------------------------------------------------------------------------
// Sanitising free-text fields
// ---------------------------------------------------------------------------
/// Commas are the report's field separator, so values may not carry them.
pub open spec fn desep(c: char) -> char {
    if c == ',' {
        ' '
    } else {
        c
    }
}

/// A free-text field as it is stored: trimmed, commas replaced by spaces.
pub open spec fn sanitize_spec(s: Seq<char>) -> Seq<char> {
    trim_spec(s).map_values(|c: char| desep(c))
}

/// Relies on `FromIterator<char> for String` (`collect`): the string made of
/// exactly these characters in order.
#[verifier::external_body]
fn string_from_chars(v: Vec<char>) -> (r: String)
    ensures
        r@ == v@,
{
    v.into_iter().collect()
}

/// Trim `s` and replace each comma by a space.
pub fn sanitize(s: &str) -> (r: String)
    ensures
        r@ == sanitize_spec(s@),
{
    let t = trim_ws(s);
    let n = t.unicode_len();
    let mut out: Vec<char> = Vec::new();
    proof {
        assert(t@.take(0).map_values(|c: char| desep(c)) =~= out@);
    }
    let mut i: usize = 0;
    while i < n
        invariant
            0 <= i <= n == t@.len(),
            t@ == trim_spec(s@),
            out@ == t@.take(i as int).map_values(|c: char| desep(c)),
        decreases n - i,
    {
        let c = t.get_char(i);
        if c == ',' {
            out.push(' ');
        } else {
            out.push(c);
        }
        proof {
            assert(t@.take(i as int + 1).map_values(|c: char| desep(c)) =~= t@.take(
                i as int,
            ).map_values(|c: char| desep(c)).push(desep(t@[i as int])));
        }
        i = i + 1;
    }
    proof {
        assert(t@.take(n as int) =~= t@);
    }
    string_from_chars(out)
}

} // verus!
