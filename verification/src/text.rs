//! Character-sequence operations on names: trimming, prefix and substring
//! tests, splitting, joining, decimal formatting and parsing, and the
//! ordering of `String` (code-point lexicographic order).
//!
//! Strings are handled as `Vec<char>` inside the library; `String` values
//! enter through [`chars_of`] and leave through [`string_of`].

use vstd::prelude::*;

verus! {

// ─── Conversions ────────────────────────────────────────────────────────────

/// The characters of a string slice.
pub fn chars_of(s: &str) -> (r: Vec<char>)
    ensures
        r@ == s@,
{
    let mut r: Vec<char> = Vec::new();
    for c in it: s.chars()
        invariant
            r@ == it.seq().take(it.index() as int),
            it.seq() == s@,
    {
        r.push(c);
    }
    r
}

/// Collects characters into a `String` (`String: FromIterator<&char>`):
/// the string holds exactly these characters in this order.
#[verifier::external_body]
pub(crate) fn string_of(v: &[char]) -> (r: String)
    ensures
        r@ == v@,
{
    v.iter().collect()
}

/// What `str::to_lowercase` returns for a string (Unicode lower-case mapping
/// of every character; some characters map to several).
pub uninterp spec fn spec_to_lowercase(s: Seq<char>) -> Seq<char>;

/// `str::to_lowercase`: the result is the named lower-case mapping of the
/// argument's characters.
#[verifier::external_body]
pub(crate) fn to_lowercase(s: &str) -> (r: String)
    ensures
        r@ == spec_to_lowercase(s@),
{
    s.to_lowercase()
}

/// Copy of `s[from..to]`.
pub fn copy_range(s: &[char], from: usize, to: usize) -> (r: Vec<char>)
    requires
        from <= to <= s@.len(),
    ensures
        r@ == s@.subrange(from as int, to as int),
{
    let mut r: Vec<char> = Vec::new();
    let mut i = from;
    while i < to
        invariant
            from <= i <= to <= s@.len(),
            r@ == s@.subrange(from as int, i as int),
        decreases to - i,
    {
        r.push(s[i]);
        i += 1;
        assert(r@ =~= s@.subrange(from as int, i as int));
    }
    r
}

/// Equality of two character slices.
pub fn chars_eq(a: &[char], b: &[char]) -> (r: bool)
    ensures
        r == (a@ == b@),
{
    if a.len() != b.len() {
        return false;
    }
    let mut i: usize = 0;
    while i < a.len()
        invariant
            a@.len() == b@.len(),
            i <= a@.len(),
            forall|k: int| 0 <= k < i ==> a@[k] == b@[k],
        decreases a@.len() - i,
    {
        if a[i] != b[i] {
            return false;
        }
        i += 1;
    }
    assert(a@ =~= b@);
    true
}

/// Equality of two strings by their characters.
pub fn str_eq(a: &str, b: &str) -> (r: bool)
    ensures
        r == (a@ == b@),
{
    let x = chars_of(a);
    let y = chars_of(b);
    chars_eq(x.as_slice(), y.as_slice())
}

// ─── Whitespace and trimming ────────────────────────────────────────────────

/// `char::is_whitespace`: the characters with the Unicode `White_Space`
/// property.
pub open spec fn spec_is_whitespace(c: char) -> bool {
    let u = c as u32;
    ||| 0x09 <= u <= 0x0d
    ||| u == 0x20
    ||| u == 0x85
    ||| u == 0xa0
    ||| u == 0x1680
    ||| 0x2000 <= u <= 0x200a
    ||| u == 0x2028
    ||| u == 0x2029
    ||| u == 0x202f
    ||| u == 0x205f
    ||| u == 0x3000
}

pub fn is_whitespace(c: char) -> (r: bool)
    ensures
        r == spec_is_whitespace(c),
{
    let u = c as u32;
    (0x09 <= u && u <= 0x0d) || u == 0x20 || u == 0x85 || u == 0xa0 || u == 0x1680 || (0x2000
        <= u && u <= 0x200a) || u == 0x2028 || u == 0x2029 || u == 0x202f || u == 0x205f || u
        == 0x3000
}

/// The character class a trim removes: `'.'` when `dots`, whitespace
/// otherwise.
pub open spec fn in_class(c: char, dots: bool) -> bool {
    if dots {
        c == '.'
    } else {
        spec_is_whitespace(c)
    }
}

/// Number of leading characters of `s` in the class.
pub open spec fn lead_count(s: Seq<char>, dots: bool) -> nat
    decreases s.len(),
{
    if s.len() > 0 && in_class(s[0], dots) {
        1 + lead_count(s.drop_first(), dots)
    } else {
        0
    }
}

/// Number of trailing characters of `s` in the class.
pub open spec fn trail_count(s: Seq<char>, dots: bool) -> nat
    decreases s.len(),
{
    if s.len() > 0 && in_class(s.last(), dots) {
        1 + trail_count(s.drop_last(), dots)
    } else {
        0
    }
}

/// `s` with all leading and trailing characters of the class removed
/// (`str::trim_matches`).
pub open spec fn spec_trim_class(s: Seq<char>, dots: bool) -> Seq<char> {
    let t = s.skip(lead_count(s, dots) as int);
    t.take(t.len() - trail_count(t, dots))
}

/// `str::trim`.
pub open spec fn spec_trim(s: Seq<char>) -> Seq<char> {
    spec_trim_class(s, false)
}

/// `str::trim_matches('.')`.
pub open spec fn spec_trim_dots(s: Seq<char>) -> Seq<char> {
    spec_trim_class(s, true)
}

proof fn lemma_lead_count_at(s: Seq<char>, dots: bool, i: int)
    requires
        0 <= i <= s.len(),
        forall|k: int| 0 <= k < i ==> in_class(#[trigger] s[k], dots),
        i == s.len() || !in_class(s[i], dots),
    ensures
        lead_count(s, dots) == i,
    decreases i,
{
    if i > 0 {
        let t = s.drop_first();
        assert forall|k: int| 0 <= k < i - 1 implies in_class(#[trigger] t[k], dots) by {
            assert(t[k] == s[k + 1]);
        }
        if i - 1 < t.len() {
            assert(t[i - 1] == s[i]);
        }
        lemma_lead_count_at(t, dots, i - 1);
    }
}

proof fn lemma_trail_count_at(s: Seq<char>, dots: bool, j: int)
    requires
        0 <= j <= s.len(),
        forall|k: int| j <= k < s.len() ==> in_class(#[trigger] s[k], dots),
        j == 0 || !in_class(s[j - 1], dots),
    ensures
        trail_count(s, dots) == s.len() - j,
    decreases s.len() - j,
{
    if j < s.len() {
        let t = s.drop_last();
        assert forall|k: int| j <= k < t.len() implies in_class(#[trigger] t[k], dots) by {
            assert(t[k] == s[k]);
        }
        if j > 0 {
            assert(t[j - 1] == s[j - 1]);
        }
        lemma_trail_count_at(t, dots, j);
    }
}

proof fn lemma_lead_count_props(s: Seq<char>, dots: bool)
    ensures
        lead_count(s, dots) <= s.len(),
        forall|k: int| 0 <= k < lead_count(s, dots) ==> in_class(#[trigger] s[k], dots),
        lead_count(s, dots) < s.len() ==> !in_class(s[lead_count(s, dots) as int], dots),
    decreases s.len(),
{
    if s.len() > 0 && in_class(s[0], dots) {
        let t = s.drop_first();
        lemma_lead_count_props(t, dots);
        assert forall|k: int| 0 <= k < lead_count(s, dots) implies in_class(#[trigger] s[k], dots) by {
            if k > 0 {
                assert(s[k] == t[k - 1]);
            }
        }
        if lead_count(s, dots) < s.len() {
            assert(s[lead_count(s, dots) as int] == t[lead_count(t, dots) as int]);
        }
    }
}

proof fn lemma_trail_count_props(s: Seq<char>, dots: bool)
    ensures
        trail_count(s, dots) <= s.len(),
        forall|k: int| s.len() - trail_count(s, dots) <= k < s.len() ==> in_class(#[trigger] s[k], dots),
        trail_count(s, dots) < s.len() ==> !in_class(s[s.len() - trail_count(s, dots) - 1], dots),
    decreases s.len(),
{
    if s.len() > 0 && in_class(s.last(), dots) {
        let t = s.drop_last();
        lemma_trail_count_props(t, dots);
        assert forall|k: int| s.len() - trail_count(s, dots) <= k < s.len() implies in_class(#[trigger] s[k], dots) by {
            if k < s.len() - 1 {
                assert(s[k] == t[k]);
            }
        }
        if trail_count(s, dots) < s.len() {
            assert(s[s.len() - trail_count(s, dots) - 1] == t[t.len() - trail_count(t, dots) - 1]);
        }
    }
}

/// A trimmed string neither starts nor ends with a character of the
/// trimmed class.
pub proof fn lemma_trim_ends(s: Seq<char>, dots: bool)
    ensures
        spec_trim_class(s, dots).len() > 0 ==> !in_class(spec_trim_class(s, dots)[0], dots)
            && !in_class(spec_trim_class(s, dots).last(), dots),
{
    let t = s.skip(lead_count(s, dots) as int);
    lemma_lead_count_props(s, dots);
    lemma_trail_count_props(t, dots);
    let r = spec_trim_class(s, dots);
    if r.len() > 0 {
        assert(r[0] == t[0]);
        assert(t[0] == s[lead_count(s, dots) as int]);
        assert(r.last() == t[t.len() - trail_count(t, dots) - 1]);
    }
}

pub fn char_in_class(c: char, dots: bool) -> (r: bool)
    ensures
        r == in_class(c, dots),
{
    if dots {
        c == '.'
    } else {
        is_whitespace(c)
    }
}

/// Removes the leading and trailing characters of the class.
pub fn trim_class(s: &[char], dots: bool) -> (r: Vec<char>)
    ensures
        r@ == spec_trim_class(s@, dots),
{
    let n = s.len();
    let mut i: usize = 0;
    while i < n && char_in_class(s[i], dots)
        invariant
            n == s@.len(),
            i <= n,
            forall|k: int| 0 <= k < i ==> in_class(#[trigger] s@[k], dots),
        decreases n - i,
    {
        i += 1;
    }
    proof {
        lemma_lead_count_at(s@, dots, i as int);
    }
    let mut j: usize = n;
    while j > i && char_in_class(s[j - 1], dots)
        invariant
            n == s@.len(),
            i <= j <= n,
            forall|k: int| j <= k < n ==> in_class(#[trigger] s@[k], dots),
        decreases j - i,
    {
        j -= 1;
    }
    proof {
        let t = s@.skip(i as int);
        assert forall|k: int| j - i <= k < t.len() implies in_class(#[trigger] t[k], dots) by {
            assert(t[k] == s@[k + i]);
        }
        if j > i {
            assert(t[j - i - 1] == s@[j - 1]);
        }
        lemma_trail_count_at(t, dots, j - i);
        assert(t.take(t.len() - trail_count(t, dots)) =~= s@.subrange(i as int, j as int));
    }
    copy_range(s, i, j)
}

// ─── Prefixes, suffixes, substrings ─────────────────────────────────────────

pub open spec fn spec_starts_with(s: Seq<char>, t: Seq<char>) -> bool {
    t.len() <= s.len() && s.take(t.len() as int) == t
}

pub open spec fn spec_ends_with(s: Seq<char>, t: Seq<char>) -> bool {
    t.len() <= s.len() && s.skip(s.len() - t.len()) == t
}

/// `t` occurs in `s` at position `i`.
pub open spec fn occurs_at(s: Seq<char>, t: Seq<char>, i: int) -> bool {
    0 <= i && i + t.len() <= s.len() && s.subrange(i, i + t.len()) == t
}

/// `str::contains` with a string pattern.
pub open spec fn spec_contains(s: Seq<char>, t: Seq<char>) -> bool {
    exists|i: int| occurs_at(s, t, i)
}

/// Whether `t` occurs in `s` at position `i`.
pub fn matches_at(s: &[char], t: &[char], i: usize) -> (r: bool)
    ensures
        r == occurs_at(s@, t@, i as int),
{
    if i > s.len() || t.len() > s.len() - i {
        return false;
    }
    let n = s.len();
    let mut k: usize = 0;
    while k < t.len()
        invariant
            n == s@.len(),
            i + t@.len() <= s@.len(),
            k <= t@.len(),
            forall|m: int| 0 <= m < k ==> s@[i + m] == t@[m],
        decreases t@.len() - k,
    {
        assert(i + k < n);
        if s[i + k] != t[k] {
            assert(s@.subrange(i as int, i + t@.len())[k as int] != t@[k as int]);
            return false;
        }
        k += 1;
    }
    assert(s@.subrange(i as int, i + t@.len()) =~= t@);
    true
}

pub fn starts_with(s: &[char], t: &[char]) -> (r: bool)
    ensures
        r == spec_starts_with(s@, t@),
{
    let r = matches_at(s, t, 0);
    proof {
        if t@.len() <= s@.len() {
            assert(s@.take(t@.len() as int) =~= s@.subrange(0, t@.len() as int));
        }
    }
    r
}

pub fn ends_with(s: &[char], t: &[char]) -> (r: bool)
    ensures
        r == spec_ends_with(s@, t@),
{
    if t.len() > s.len() {
        return false;
    }
    let r = matches_at(s, t, s.len() - t.len());
    assert(s@.skip(s@.len() - t@.len()) =~= s@.subrange(
        s@.len() - t@.len(),
        s@.len() - t@.len() + t@.len(),
    ));
    r
}

pub fn contains(s: &[char], t: &[char]) -> (r: bool)
    ensures
        r == spec_contains(s@, t@),
{
    if t.len() > s.len() {
        return false;
    }
    if t.len() == 0 {
        assert(s@.subrange(0, 0) =~= t@);
        assert(occurs_at(s@, t@, 0));
        return true;
    }
    let last = s.len() - t.len();
    let n = s.len();
    let mut i: usize = 0;
    while i <= last
        invariant
            n == s@.len(),
            last < n,
            last == s@.len() - t@.len(),
            i <= last + 1,
            forall|k: int| 0 <= k < i ==> !occurs_at(s@, t@, k),
        decreases last + 1 - i,
    {
        if matches_at(s, t, i) {
            return true;
        }
        i += 1;
    }
    assert forall|k: int| !occurs_at(s@, t@, k) by {
        if 0 <= k && k + t@.len() <= s@.len() {
            assert(k < i);
        }
    }
    false
}

// ─── Splitting and joining ──────────────────────────────────────────────────

/// `ps` with `c` put in front of its first piece.
pub open spec fn prepend_first(c: Seq<char>, ps: Seq<Seq<char>>) -> Seq<Seq<char>> {
    if ps.len() == 0 {
        seq![c]
    } else {
        ps.update(0, c + ps[0])
    }
}

/// `str::split` with a non-empty string pattern: the pieces between the
/// leftmost non-overlapping occurrences of `t`.
pub open spec fn spec_split(s: Seq<char>, t: Seq<char>) -> Seq<Seq<char>>
    decreases s.len(),
{
    if t.len() > 0 && spec_starts_with(s, t) {
        seq![Seq::<char>::empty()] + spec_split(s.skip(t.len() as int), t)
    } else if s.len() == 0 {
        seq![Seq::<char>::empty()]
    } else {
        prepend_first(seq![s[0]], spec_split(s.drop_first(), t))
    }
}

pub proof fn lemma_split_nonempty(s: Seq<char>, t: Seq<char>)
    ensures
        spec_split(s, t).len() >= 1,
    decreases s.len(),
{
    if t.len() > 0 && spec_starts_with(s, t) {
        lemma_split_nonempty(s.skip(t.len() as int), t);
    } else if s.len() > 0 {
        lemma_split_nonempty(s.drop_first(), t);
    }
}

proof fn lemma_prepend_first_concat(a: Seq<char>, b: Seq<char>, ps: Seq<Seq<char>>)
    requires
        ps.len() >= 1,
    ensures
        prepend_first(a, prepend_first(b, ps)) == prepend_first(a + b, ps),
{
    assert(a + (b + ps[0]) =~= (a + b) + ps[0]);
    assert(prepend_first(a, prepend_first(b, ps)) =~= prepend_first(a + b, ps));
}

/// Splits `s` at every leftmost non-overlapping occurrence of the
/// non-empty pattern `t`.
pub fn split(s: &[char], t: &[char]) -> (r: Vec<Vec<char>>)
    requires
        t@.len() > 0,
    ensures
        r@.len() == spec_split(s@, t@).len(),
        forall|k: int| 0 <= k < r@.len() ==> #[trigger] r@[k]@ == spec_split(s@, t@)[k],
{
    let mut pieces: Vec<Vec<char>> = Vec::new();
    let mut cur: Vec<char> = Vec::new();
    let mut i: usize = 0;
    let ghost views: Seq<Seq<char>> = Seq::empty();
    proof {
        assert(s@.skip(0) =~= s@);
        lemma_split_nonempty(s@, t@);
        assert(prepend_first(cur@, spec_split(s@, t@)) =~= spec_split(s@, t@));
    }
    while i < s.len()
        invariant
            t@.len() > 0,
            i <= s@.len(),
            views.len() == pieces@.len(),
            forall|k: int| 0 <= k < pieces@.len() ==> #[trigger] pieces@[k]@ == views[k],
            spec_split(s@, t@) == views + prepend_first(cur@, spec_split(s@.skip(i as int), t@)),
        decreases s@.len() - i,
    {
        let ghost rest = s@.skip(i as int);
        if matches_at(s, t, i) {
            proof {
                assert(rest.take(t@.len() as int) =~= s@.subrange(i as int, i + t@.len()));
                assert(rest.skip(t@.len() as int) =~= s@.skip(i + t@.len()));
                lemma_split_nonempty(s@.skip(i + t@.len()), t@);
                let r2 = spec_split(s@.skip(i + t@.len()), t@);
                assert(cur@ + Seq::<char>::empty() =~= cur@);
                assert(prepend_first(cur@, seq![Seq::<char>::empty()] + r2) =~= seq![cur@] + r2);
                assert(Seq::<char>::empty() + r2[0] =~= r2[0]);
                assert(prepend_first(Seq::<char>::empty(), r2) =~= r2);
            }
            pieces.push(cur);
            cur = Vec::new();
            i += t.len();
            proof {
                views = views.push(pieces@[pieces@.len() - 1]@);
                let r2 = spec_split(s@.skip(i as int), t@);
                assert(views + prepend_first(cur@, r2) =~= (views.drop_last() + seq![views.last()])
                    + r2);
            }
        } else {
            proof {
                assert(!spec_starts_with(rest, t@)) by {
                    if spec_starts_with(rest, t@) {
                        assert(rest.take(t@.len() as int) =~= s@.subrange(
                            i as int,
                            i + t@.len(),
                        ));
                    }
                }
                assert(rest.drop_first() =~= s@.skip(i + 1));
                lemma_split_nonempty(s@.skip(i + 1), t@);
                lemma_prepend_first_concat(cur@, seq![s@[i as int]], spec_split(s@.skip(i + 1), t@));
                assert(cur@.push(s@[i as int]) =~= cur@ + seq![s@[i as int]]);
            }
            cur.push(s[i]);
            i += 1;
        }
    }
    proof {
        assert(s@.skip(i as int) =~= Seq::<char>::empty());
        assert(prepend_first(cur@, seq![Seq::<char>::empty()]) =~= seq![cur@]);
    }
    pieces.push(cur);
    proof {
        views = views.push(cur@);
    }
    pieces
}

/// `[String]::join(sep)`.
pub open spec fn spec_join(parts: Seq<Seq<char>>, sep: Seq<char>) -> Seq<char>
    decreases parts.len(),
{
    if parts.len() == 0 {
        Seq::empty()
    } else if parts.len() == 1 {
        parts[0]
    } else {
        spec_join(parts.drop_last(), sep) + sep + parts.last()
    }
}

pub fn join(parts: &Vec<Vec<char>>, sep: &[char]) -> (r: Vec<char>)
    ensures
        r@ == spec_join(parts@.map_values(|p: Vec<char>| p@), sep@),
{
    let ghost pv = parts@.map_values(|p: Vec<char>| p@);
    let mut r: Vec<char> = Vec::new();
    let mut i: usize = 0;
    while i < parts.len()
        invariant
            i <= parts@.len(),
            pv == parts@.map_values(|p: Vec<char>| p@),
            r@ == spec_join(pv.take(i as int), sep@),
        decreases parts@.len() - i,
    {
        if i > 0 {
            let mut k: usize = 0;
            while k < sep.len()
                invariant
                    k <= sep@.len(),
                    r@ == spec_join(pv.take(i as int), sep@) + sep@.take(k as int),
                decreases sep@.len() - k,
            {
                r.push(sep[k]);
                k += 1;
                assert(sep@.take(k as int) =~= sep@.take(k - 1).push(sep@[k - 1]));
            }
        }
        let p = &parts[i];
        let ghost before = r@;
        let mut k: usize = 0;
        while k < p.len()
            invariant
                k <= p@.len(),
                r@ == before + p@.take(k as int),
            decreases p@.len() - k,
        {
            r.push(p[k]);
            k += 1;
            assert(p@.take(k as int) =~= p@.take(k - 1).push(p@[k - 1]));
        }
        proof {
            assert(pv.take(i + 1).drop_last() =~= pv.take(i as int));
            assert(pv.take(i + 1).last() == p@);
            assert(p@.take(p@.len() as int) =~= p@);
            assert(sep@.take(sep@.len() as int) =~= sep@);
            if i == 0 {
                assert(r@ =~= spec_join(pv.take(1), sep@));
            } else {
                assert(r@ =~= spec_join(pv.take(i + 1), sep@));
            }
        }
        i += 1;
    }
    assert(pv.take(parts@.len() as int) =~= pv);
    r
}

// ─── Decimal numbers ────────────────────────────────────────────────────────

pub open spec fn spec_digit(d: nat) -> char {
    (('0' as u32) + d) as char
}

/// The decimal representation of `n` (`usize`'s `Display`).
pub open spec fn spec_decimal(n: nat) -> Seq<char>
    decreases n,
{
    if n < 10 {
        seq![spec_digit(n)]
    } else {
        spec_decimal(n / 10).push(spec_digit(n % 10))
    }
}

fn digit(d: usize) -> (c: char)
    requires
        d < 10,
    ensures
        c == spec_digit(d as nat),
{
    if d == 0 {
        '0'
    } else if d == 1 {
        '1'
    } else if d == 2 {
        '2'
    } else if d == 3 {
        '3'
    } else if d == 4 {
        '4'
    } else if d == 5 {
        '5'
    } else if d == 6 {
        '6'
    } else if d == 7 {
        '7'
    } else if d == 8 {
        '8'
    } else {
        '9'
    }
}

/// Appends the decimal representation of `n` to `out`.
pub fn push_decimal(out: &mut Vec<char>, n: usize)
    ensures
        final(out)@ == old(out)@ + spec_decimal(n as nat),
    decreases n,
{
    if n < 10 {
        out.push(digit(n));
        assert(final(out)@ =~= old(out)@ + spec_decimal(n as nat));
    } else {
        push_decimal(out, n / 10);
        out.push(digit(n % 10));
        assert(final(out)@ =~= old(out)@ + spec_decimal(n as nat));
    }
}

/// Value of a sequence of ASCII digits.
pub open spec fn digits_value(s: Seq<char>) -> nat
    decreases s.len(),
{
    if s.len() == 0 {
        0
    } else {
        digits_value(s.drop_last()) * 10 + ((s.last() as u32) - ('0' as u32)) as nat
    }
}

pub open spec fn is_ascii_digit(c: char) -> bool {
    '0' <= c <= '9'
}

pub open spec fn all_digits(d: Seq<char>) -> bool {
    forall|i: int| 0 <= i < d.len() ==> is_ascii_digit(#[trigger] d[i])
}

/// `<u64 as FromStr>::from_str`: an optional `+`, then one or more ASCII
/// digits whose value fits in a `u64`.
pub open spec fn spec_parse_u64(s: Seq<char>) -> Option<u64> {
    let d = if s.len() > 0 && s[0] == '+' {
        s.drop_first()
    } else {
        s
    };
    if d.len() == 0 || !all_digits(d) {
        None
    } else if digits_value(d) > u64::MAX {
        None
    } else {
        Some(digits_value(d) as u64)
    }
}

proof fn lemma_digits_value_mono(s: Seq<char>, k: int)
    requires
        0 <= k <= s.len(),
        forall|i: int| 0 <= i < s.len() ==> is_ascii_digit(#[trigger] s[i]),
    ensures
        digits_value(s.take(k)) <= digits_value(s),
    decreases s.len() - k,
{
    if k < s.len() {
        assert(s.drop_last().take(k) =~= s.take(k));
        lemma_digits_value_mono(s.drop_last(), k);
    } else {
        assert(s.take(k) =~= s);
    }
}

/// Parses a `u64` as `str::parse::<u64>` does.
pub fn parse_u64(s: &[char]) -> (r: Option<u64>)
    ensures
        r == spec_parse_u64(s@),
{
    let start: usize = if s.len() > 0 && s[0] == '+' {
        1
    } else {
        0
    };
    let ghost d = if s@.len() > 0 && s@[0] == '+' {
        s@.drop_first()
    } else {
        s@
    };
    assert(d =~= s@.skip(start as int));
    if start == s.len() {
        return None;
    }
    let mut value: u64 = 0;
    let mut i: usize = start;
    while i < s.len()
        invariant
            start <= i <= s@.len(),
            d == s@.skip(start as int),
            d == (if s@.len() > 0 && s@[0] == '+' {
                s@.drop_first()
            } else {
                s@
            }),
            forall|k: int| start <= k < i ==> is_ascii_digit(#[trigger] s@[k]),
            value as nat == digits_value(d.take(i - start)),
        decreases s@.len() - i,
    {
        let c = s[i];
        assert(d[i - start] == s@[i as int]);
        if !('0' <= c && c <= '9') {
            assert(!is_ascii_digit(d[i - start]));
            assert(!all_digits(d));
            return None;
        }
        let dv = (c as u32 - '0' as u32) as u64;
        proof {
            assert(d.take(i + 1 - start).drop_last() =~= d.take(i - start));
            assert(d.take(i + 1 - start).last() == c);
        }
        if value > (u64::MAX - dv) / 10 {
            proof {
                assert forall|k: int| 0 <= k < i + 1 - start implies is_ascii_digit(
                    #[trigger] d.take(i + 1 - start)[k],
                ) by {
                    assert(d.take(i + 1 - start)[k] == s@[k + start]);
                }
                let x = d.take(i + 1 - start);
                assert(digits_value(x) == digits_value(x.drop_last()) * 10 + ((x.last() as u32) - ('0' as u32)) as nat);
                assert(digits_value(x) == value * 10 + dv);
                assert(digits_value(d.take(i + 1 - start)) > u64::MAX) by (nonlinear_arith)
                    requires
                        digits_value(d.take(i + 1 - start)) == value * 10 + dv,
                        value > (u64::MAX - dv) / 10,
                        dv <= 9,
                ;
                if all_digits(d) {
                    lemma_digits_value_mono(d, i + 1 - start);
                }
            }
            return None;
        }
        proof {
            assert(value * 10 + dv <= u64::MAX) by (nonlinear_arith)
                requires
                    value <= (u64::MAX - dv) / 10,
                    dv <= 9,
            ;
        }
        value = value * 10 + dv;
        i += 1;
    }
    assert(d.take(i - start) =~= d);
    assert forall|k: int| 0 <= k < d.len() implies is_ascii_digit(#[trigger] d[k]) by {
        assert(d[k] == s@[k + start]);
    }
    Some(value)
}

// ─── Ordering ───────────────────────────────────────────────────────────────

/// `String`'s `<`: lexicographic order of the characters by code point
/// (the same as the byte order of their UTF-8 encodings).
pub open spec fn seq_lt(a: Seq<char>, b: Seq<char>) -> bool
    decreases a.len(),
{
    if a.len() == 0 {
        b.len() > 0
    } else if b.len() == 0 {
        false
    } else if a[0] != b[0] {
        (a[0] as int) < (b[0] as int)
    } else {
        seq_lt(a.drop_first(), b.drop_first())
    }
}

pub proof fn lemma_seq_lt_irreflexive(a: Seq<char>)
    ensures
        !seq_lt(a, a),
    decreases a.len(),
{
    if a.len() > 0 {
        lemma_seq_lt_irreflexive(a.drop_first());
    }
}

pub proof fn lemma_seq_lt_asymmetric(a: Seq<char>, b: Seq<char>)
    ensures
        seq_lt(a, b) ==> !seq_lt(b, a),
    decreases a.len(),
{
    if a.len() > 0 && b.len() > 0 && a[0] == b[0] {
        lemma_seq_lt_asymmetric(a.drop_first(), b.drop_first());
    }
}

pub proof fn lemma_seq_lt_total(a: Seq<char>, b: Seq<char>)
    ensures
        a != b ==> seq_lt(a, b) || seq_lt(b, a),
    decreases a.len(),
{
    if a.len() > 0 && b.len() > 0 && a[0] == b[0] {
        lemma_seq_lt_total(a.drop_first(), b.drop_first());
        if a.drop_first() == b.drop_first() {
            assert(a =~= seq![a[0]] + a.drop_first());
            assert(b =~= seq![b[0]] + b.drop_first());
        }
    } else if a.len() == 0 && b.len() == 0 {
        assert(a =~= b);
    } else if a.len() > 0 && b.len() > 0 {
        assert(a[0] != b[0]);
    }
}

pub proof fn lemma_seq_lt_transitive(a: Seq<char>, b: Seq<char>, c: Seq<char>)
    requires
        seq_lt(a, b),
        seq_lt(b, c),
    ensures
        seq_lt(a, c),
    decreases a.len(),
{
    if a.len() > 0 && b.len() > 0 && c.len() > 0 && a[0] == b[0] && b[0] == c[0] {
        lemma_seq_lt_transitive(a.drop_first(), b.drop_first(), c.drop_first());
    }
}

/// Three-way comparison of two character sequences.
pub enum Cmp {
    Less,
    Equal,
    Greater,
}

pub fn compare_chars(a: &[char], b: &[char]) -> (r: Cmp)
    ensures
        r is Less <==> seq_lt(a@, b@),
        r is Equal <==> a@ == b@,
        r is Greater <==> seq_lt(b@, a@),
{
    let mut i: usize = 0;
    assert(a@.skip(0) =~= a@);
    assert(b@.skip(0) =~= b@);
    while i < a.len() && i < b.len() && a[i] == b[i]
        invariant
            i <= a@.len(),
            i <= b@.len(),
            forall|k: int| 0 <= k < i ==> a@[k] == b@[k],
            seq_lt(a@, b@) == seq_lt(a@.skip(i as int), b@.skip(i as int)),
            seq_lt(b@, a@) == seq_lt(b@.skip(i as int), a@.skip(i as int)),
        decreases a@.len() - i,
    {
        proof {
            assert(a@.skip(i as int).drop_first() =~= a@.skip(i + 1));
            assert(b@.skip(i as int).drop_first() =~= b@.skip(i + 1));
        }
        i += 1;
    }
    proof {
        lemma_seq_lt_asymmetric(a@, b@);
        lemma_seq_lt_irreflexive(a@);
    }
    if i == a.len() && i == b.len() {
        assert(a@ =~= b@);
        Cmp::Equal
    } else if i == a.len() {
        assert(a@.skip(i as int).len() == 0);
        assert(a@ != b@);
        Cmp::Less
    } else if i == b.len() {
        assert(b@.skip(i as int).len() == 0);
        assert(a@ != b@);
        Cmp::Greater
    } else {
        assert(a@.skip(i as int)[0] == a@[i as int]);
        assert(b@.skip(i as int)[0] == b@[i as int]);
        assert(a@[i as int] != b@[i as int]);
        if a[i] < b[i] {
            Cmp::Less
        } else {
            Cmp::Greater
        }
    }
}

} // verus!
