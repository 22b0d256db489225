use vstd::prelude::*;

verus! {

// ---------------------------------------------------------------------------
// Characters
// ---------------------------------------------------------------------------

/// Unicode `White_Space`, the property that `char::is_whitespace` tests.
pub open spec fn is_ws(c: char) -> bool {
    ||| ('\u{9}' <= c && c <= '\u{d}')
    ||| c == ' '
    ||| c == '\u{85}'
    ||| c == '\u{a0}'
    ||| c == '\u{1680}'
    ||| ('\u{2000}' <= c && c <= '\u{200a}')
    ||| c == '\u{2028}'
    ||| c == '\u{2029}'
    ||| c == '\u{202f}'
    ||| c == '\u{205f}'
    ||| c == '\u{3000}'
}

pub fn is_whitespace_char(c: char) -> (b: bool)
    ensures
        b == is_ws(c),
{
    ('\u{9}' <= c && c <= '\u{d}') || c == ' ' || c == '\u{85}' || c == '\u{a0}' || c == '\u{1680}'
        || ('\u{2000}' <= c && c <= '\u{200a}') || c == '\u{2028}' || c == '\u{2029}' || c
        == '\u{202f}' || c == '\u{205f}' || c == '\u{3000}'
}

/// ASCII lower-casing of one character; every other character is unchanged.
pub open spec fn lower(c: char) -> char {
    if 'A' <= c && c <= 'Z' {
        ((c as u32) + 32) as char
    } else {
        c
    }
}

pub fn lower_char(c: char) -> (r: char)
    ensures
        r == lower(c),
{
    if 'A' <= c && c <= 'Z' {
        let b: u8 = c as u8;
        (b + 32) as char
    } else {
        c
    }
}

} // verus!

verus! {

// ---------------------------------------------------------------------------
// Strings as sequences of characters
// ---------------------------------------------------------------------------

/// The characters of `s`, in order.
pub fn chars_of(s: &str) -> (out: Vec<char>)
    ensures
        out@ == s@,
{
    let mut out: Vec<char> = Vec::new();
    for c in it: s.chars()
        invariant
            out@ == it.seq().take(it.index() as int),
    {
        out.push(c);
    }
    out
}

/// `String` made of the given characters (std's `FromIterator<&char> for String`).
#[verifier::external_body]
pub(crate) fn string_from_chars(chars: &Vec<char>) -> (s: String)
    ensures
        s@ == chars@,
{
    chars.iter().collect()
}

/// The text of an optional string.
pub open spec fn opt_view(o: Option<String>) -> Option<Seq<char>> {
    match o {
        Some(s) => Some(s@),
        None => None,
    }
}

/// The texts of a sequence of string pairs.
pub open spec fn pair_views(pairs: Seq<(String, String)>) -> Seq<(Seq<char>, Seq<char>)> {
    pairs.map_values(|p: (String, String)| (p.0@, p.1@))
}

/// The texts of a result of strings.
pub open spec fn result_view(r: Result<String, String>) -> Result<Seq<char>, Seq<char>> {
    match r {
        Ok(s) => Ok(s@),
        Err(e) => Err(e@),
    }
}

/// The characters of `s` from `from` (inclusive) to `to` (exclusive), as a `String`.
pub fn substring(s: &str, from: usize, to: usize) -> (r: String)
    requires
        from <= to <= s@.len(),
    ensures
        r@ == s@.subrange(from as int, to as int),
{
    s.substring_char(from, to).to_owned()
}

pub open spec fn trim_start(s: Seq<char>) -> Seq<char>
    decreases s.len(),
{
    if s.len() > 0 && is_ws(s[0]) {
        trim_start(s.drop_first())
    } else {
        s
    }
}

pub open spec fn trim_end(s: Seq<char>) -> Seq<char>
    decreases s.len(),
{
    if s.len() > 0 && is_ws(s.last()) {
        trim_end(s.drop_last())
    } else {
        s
    }
}

/// `str::trim`: the sequence without leading and trailing white space.
pub open spec fn trim(s: Seq<char>) -> Seq<char> {
    trim_end(trim_start(s))
}

/// Bounds of the trimmed part of `v`.
pub fn trim_bounds(v: &Vec<char>) -> (r: (usize, usize))
    ensures
        r.0 <= r.1 <= v@.len(),
        v@.subrange(r.0 as int, r.1 as int) == trim(v@),
        trim_start(v@) == v@.subrange(r.0 as int, v@.len() as int),
{
    let n = v.len();
    let mut i: usize = 0;
    assert(v@.subrange(0, n as int) == v@);
    while i < n && is_whitespace_char(v[i])
        invariant
            i <= n,
            n == v@.len(),
            trim_start(v@) == trim_start(v@.subrange(i as int, n as int)),
        decreases n - i,
    {
        assert(v@.subrange(i as int, n as int).drop_first() == v@.subrange(i + 1, n as int));
        i = i + 1;
    }
    let mut j: usize = n;
    while j > i && is_whitespace_char(v[j - 1])
        invariant
            i <= j <= n,
            n == v@.len(),
            trim_start(v@) == v@.subrange(i as int, n as int),
            trim_end(v@.subrange(i as int, n as int)) == trim_end(v@.subrange(i as int, j as int)),
        decreases j - i,
    {
        assert(v@.subrange(i as int, j as int).drop_last() == v@.subrange(i as int, j - 1));
        j = j - 1;
    }
    (i, j)
}

/// `str::trim`, returned as a `String`.
pub fn trim_string(s: &str) -> (r: String)
    ensures
        r@ == trim(s@),
{
    let v = chars_of(s);
    let (a, b) = trim_bounds(&v);
    substring(s, a, b)
}

pub proof fn lemma_trim_idempotent(s: Seq<char>)
    ensures
        trim(trim(s)) == trim(s),
{
    lemma_trim_start_shape(s);
    lemma_trim_end_shape(trim_start(s));
    let t = trim(s);
    if t.len() > 0 {
        lemma_trim_end_keeps_first(trim_start(s));
        assert(!is_ws(t[0]));
        assert(!is_ws(t.last()));
        assert(trim_start(t) == t);
        assert(trim_end(t) == t);
    } else {
        assert(trim_start(t) == t);
        assert(trim_end(t) == t);
    }
}

pub proof fn lemma_trim_start_shape(s: Seq<char>)
    ensures
        trim_start(s).len() > 0 ==> !is_ws(trim_start(s)[0]),
        exists|k: int| 0 <= k <= s.len() && trim_start(s) == s.subrange(k, s.len() as int),
    decreases s.len(),
{
    if s.len() > 0 && is_ws(s[0]) {
        lemma_trim_start_shape(s.drop_first());
        let k = choose|k: int|
            0 <= k <= s.drop_first().len() && trim_start(s.drop_first()) == s.drop_first().subrange(
                k,
                s.drop_first().len() as int,
            );
        assert(s.drop_first().subrange(k, s.drop_first().len() as int) == s.subrange(
            k + 1,
            s.len() as int,
        ));
    } else {
        assert(s.subrange(0, s.len() as int) == s);
    }
}

pub proof fn lemma_trim_end_shape(s: Seq<char>)
    ensures
        trim_end(s).len() > 0 ==> !is_ws(trim_end(s).last()),
        exists|k: int| 0 <= k <= s.len() && trim_end(s) == s.subrange(0, k),
    decreases s.len(),
{
    if s.len() > 0 && is_ws(s.last()) {
        lemma_trim_end_shape(s.drop_last());
        let k = choose|k: int|
            0 <= k <= s.drop_last().len() && trim_end(s.drop_last()) == s.drop_last().subrange(0, k);
        assert(s.drop_last().subrange(0, k) == s.subrange(0, k));
    } else {
        assert(s.subrange(0, s.len() as int) == s);
    }
}

pub proof fn lemma_trim_end_keeps_first(s: Seq<char>)
    requires
        s.len() > 0 ==> !is_ws(s[0]),
    ensures
        trim_end(s).len() > 0 ==> trim_end(s)[0] == s[0],
    decreases s.len(),
{
    if s.len() > 0 && is_ws(s.last()) {
        lemma_trim_end_keeps_first(s.drop_last());
    }
}

// ---------------------------------------------------------------------------
// Comparison and search
// ---------------------------------------------------------------------------

/// ASCII case-insensitive equality (`eq_ignore_ascii_case`).
pub open spec fn eq_ic(a: Seq<char>, b: Seq<char>) -> bool {
    a.len() == b.len() && forall|i: int| 0 <= i < a.len() ==> lower(#[trigger] a[i]) == lower(b[i])
}

/// `p` occurs in `s` at index `i`.
pub open spec fn matches_at(s: Seq<char>, p: Seq<char>, i: int) -> bool {
    0 <= i && i + p.len() <= s.len() && s.subrange(i, i + p.len()) == p
}

/// `p` occurs in `s` at index `i`, ignoring ASCII case.
pub open spec fn matches_ic_at(s: Seq<char>, p: Seq<char>, i: int) -> bool {
    0 <= i && i + p.len() <= s.len() && eq_ic(s.subrange(i, i + p.len()), p)
}

pub open spec fn contains_ic(s: Seq<char>, p: Seq<char>) -> bool {
    exists|i: int| matches_ic_at(s, p, i)
}

pub open spec fn starts_with(s: Seq<char>, p: Seq<char>) -> bool {
    matches_at(s, p, 0)
}

pub open spec fn ends_with(s: Seq<char>, p: Seq<char>) -> bool {
    p.len() <= s.len() && matches_at(s, p, s.len() - p.len())
}

/// The first index at or after `i` at which `p` occurs in `s` (`str::find`).
pub open spec fn find_from(s: Seq<char>, p: Seq<char>, i: int) -> Option<int>
    decreases s.len() - i,
{
    if i < 0 || i + p.len() > s.len() {
        None
    } else if matches_at(s, p, i) {
        Some(i)
    } else {
        proof {
            if p.len() == 0 {
                assert(s.subrange(i, i) =~= p);
            }
        }
        find_from(s, p, i + 1)
    }
}

pub open spec fn find(s: Seq<char>, p: Seq<char>) -> Option<int> {
    find_from(s, p, 0)
}

pub proof fn lemma_find_from_bounds(s: Seq<char>, p: Seq<char>, i: int)
    requires
        0 <= i,
    ensures
        find_from(s, p, i) matches Some(k) ==> i <= k && matches_at(s, p, k) && forall|j: int|
            i <= j < k ==> !matches_at(s, p, j),
        find_from(s, p, i) is None ==> forall|j: int| i <= j ==> !matches_at(s, p, j),
    decreases s.len() - i,
{
    if p.len() == 0 && i <= s.len() {
        assert(s.subrange(i, i) =~= p);
    }
    if i + p.len() > s.len() {
    } else if matches_at(s, p, i) {
    } else {
        lemma_find_from_bounds(s, p, i + 1);
    }
}

pub fn eq_ic_at(v: &Vec<char>, start: usize, p: &Vec<char>) -> (b: bool)
    ensures
        b == matches_ic_at(v@, p@, start as int),
{
    if start > v.len() || p.len() > v.len() - start {
        return false;
    }
    let mut k: usize = 0;
    while k < p.len()
        invariant
            start + p@.len() <= v@.len(),
            v@.len() <= usize::MAX,
            k <= p@.len(),
            forall|j: int| 0 <= j < k ==> lower(v@[start + j]) == lower(p@[j]),
        decreases p@.len() - k,
    {
        if lower_char(v[start + k]) != lower_char(p[k]) {
            assert(!eq_ic(v@.subrange(start as int, start + p@.len()), p@)) by {
                assert(v@.subrange(start as int, start + p@.len())[k as int] == v@[start + k]);
            }
            return false;
        }
        k = k + 1;
    }
    assert(eq_ic(v@.subrange(start as int, start + p@.len()), p@)) by {
        assert forall|j: int| 0 <= j < p@.len() implies lower(
            #[trigger] v@.subrange(start as int, start + p@.len())[j],
        ) == lower(p@[j]) by {
            assert(v@.subrange(start as int, start + p@.len())[j] == v@[start + j]);
        }
    }
    true
}

pub fn eq_at(v: &Vec<char>, start: usize, p: &Vec<char>) -> (b: bool)
    ensures
        b == matches_at(v@, p@, start as int),
{
    if start > v.len() || p.len() > v.len() - start {
        return false;
    }
    let mut k: usize = 0;
    while k < p.len()
        invariant
            start + p@.len() <= v@.len(),
            v@.len() <= usize::MAX,
            k <= p@.len(),
            forall|j: int| 0 <= j < k ==> v@[start + j] == p@[j],
        decreases p@.len() - k,
    {
        if v[start + k] != p[k] {
            assert(v@.subrange(start as int, start + p@.len())[k as int] == v@[start + k]);
            return false;
        }
        k = k + 1;
    }
    assert(v@.subrange(start as int, start + p@.len()) =~= p@);
    true
}

/// ASCII case-insensitive equality of two whole sequences.
pub fn eq_ignore_case(a: &Vec<char>, p: &Vec<char>) -> (b: bool)
    ensures
        b == eq_ic(a@, p@),
{
    if a.len() != p.len() {
        return false;
    }
    let r = eq_ic_at(a, 0, p);
    assert(a@.subrange(0, p@.len() as int) == a@);
    r
}

pub fn contains_ignore_case(v: &Vec<char>, p: &Vec<char>) -> (b: bool)
    ensures
        b == contains_ic(v@, p@),
{
    let mut i: usize = 0;
    while i < v.len()
        invariant
            i <= v@.len(),
            forall|j: int| 0 <= j < i ==> !matches_ic_at(v@, p@, j),
        decreases v@.len() - i,
    {
        if eq_ic_at(v, i, p) {
            return true;
        }
        i = i + 1;
    }
    if eq_ic_at(v, i, p) {
        return true;
    }
    assert forall|j: int| !matches_ic_at(v@, p@, j) by {
        if 0 <= j < i {
        } else if j > i {
        }
    }
    false
}

/// `str::find`, over characters.
pub fn find_in(v: &Vec<char>, p: &Vec<char>) -> (r: Option<usize>)
    ensures
        r matches Some(k) ==> find(v@, p@) == Some(k as int) && k + p@.len() <= v@.len()
            <= usize::MAX,
        r is None ==> find(v@, p@) is None,
{
    proof {
        lemma_find_from_bounds(v@, p@, 0);
    }
    let mut i: usize = 0;
    while i < v.len()
        invariant
            i <= v@.len(),
            find(v@, p@) == find_from(v@, p@, i as int),
        decreases v@.len() - i,
    {
        if eq_at(v, i, p) {
            return Some(i);
        }
        if p.len() > v.len() - i {
            return None;
        }
        i = i + 1;
    }
    if eq_at(v, i, p) {
        return Some(i);
    }
    proof {
        if p@.len() == 0 {
            assert(v@.subrange(i as int, i as int) =~= p@);
        }
    }
    None
}

} // verus!

verus! {

// ---------------------------------------------------------------------------
// Single characters: position, last position, splitting
// ---------------------------------------------------------------------------

/// The first index at or after `i` that holds `c`.
pub open spec fn pos_from(s: Seq<char>, c: char, i: int) -> Option<int>
    decreases s.len() - i,
{
    if i < 0 || i >= s.len() {
        None
    } else if s[i] == c {
        Some(i)
    } else {
        pos_from(s, c, i + 1)
    }
}

/// The first index that holds `c` (`str::find` with a `char`).
pub open spec fn pos_of(s: Seq<char>, c: char) -> Option<int> {
    pos_from(s, c, 0)
}

/// The last index before `i` that holds `c`.
pub open spec fn rpos_before(s: Seq<char>, c: char, i: int) -> Option<int>
    decreases i,
{
    if i <= 0 || i > s.len() {
        None
    } else if s[i - 1] == c {
        Some(i - 1)
    } else {
        rpos_before(s, c, i - 1)
    }
}

/// The last index that holds `c` (`str::rfind` with a `char`).
pub open spec fn rpos_of(s: Seq<char>, c: char) -> Option<int> {
    rpos_before(s, c, s.len() as int)
}

pub proof fn lemma_pos_from(s: Seq<char>, c: char, i: int)
    requires
        0 <= i,
    ensures
        pos_from(s, c, i) matches Some(k) ==> i <= k < s.len() && s[k] == c && forall|j: int|
            i <= j < k ==> s[j] != c,
        pos_from(s, c, i) is None ==> forall|j: int| i <= j < s.len() ==> s[j] != c,
    decreases s.len() - i,
{
    if i >= s.len() {
    } else if s[i] == c {
    } else {
        lemma_pos_from(s, c, i + 1);
    }
}

pub proof fn lemma_rpos_before(s: Seq<char>, c: char, i: int)
    requires
        i <= s.len(),
    ensures
        rpos_before(s, c, i) matches Some(k) ==> 0 <= k < i && s[k] == c && forall|j: int|
            k < j < i ==> s[j] != c,
        rpos_before(s, c, i) is None ==> forall|j: int| 0 <= j < i ==> s[j] != c,
    decreases i,
{
    if i <= 0 {
    } else if s[i - 1] == c {
    } else {
        lemma_rpos_before(s, c, i - 1);
    }
}

pub proof fn lemma_pos_of(s: Seq<char>, c: char)
    ensures
        pos_of(s, c) matches Some(k) ==> 0 <= k < s.len() && s[k] == c && forall|j: int|
            0 <= j < k ==> s[j] != c,
        pos_of(s, c) is None ==> forall|j: int| 0 <= j < s.len() ==> s[j] != c,
{
    lemma_pos_from(s, c, 0);
}

pub proof fn lemma_rpos_of(s: Seq<char>, c: char)
    ensures
        rpos_of(s, c) matches Some(k) ==> 0 <= k < s.len() && s[k] == c && forall|j: int|
            k < j < s.len() ==> s[j] != c,
        rpos_of(s, c) is None ==> forall|j: int| 0 <= j < s.len() ==> s[j] != c,
{
    lemma_rpos_before(s, c, s.len() as int);
}

/// Exec `pos_from`.
pub fn pos_from_exec(v: &Vec<char>, c: char, start: usize) -> (r: Option<usize>)
    ensures
        r matches Some(k) ==> pos_from(v@, c, start as int) == Some(k as int),
        r is None ==> pos_from(v@, c, start as int) is None,
{
    let mut i = start;
    while i < v.len()
        invariant
            start <= i,
            pos_from(v@, c, start as int) == pos_from(v@, c, i as int),
        decreases v@.len() - i,
    {
        if v[i] == c {
            return Some(i);
        }
        i = i + 1;
    }
    None
}

/// Exec `rpos_of`.
pub fn rpos_exec(v: &Vec<char>, c: char) -> (r: Option<usize>)
    ensures
        r matches Some(k) ==> rpos_of(v@, c) == Some(k as int) && k < v@.len() <= usize::MAX,
        r is None ==> rpos_of(v@, c) is None,
{
    let mut i = v.len();
    while i > 0
        invariant
            i <= v@.len() <= usize::MAX,
            rpos_of(v@, c) == rpos_before(v@, c, i as int),
        decreases i,
    {
        if v[i - 1] == c {
            return Some(i - 1);
        }
        i = i - 1;
    }
    None
}

/// `str::split` with a `char` separator.
pub open spec fn split_char(s: Seq<char>, c: char) -> Seq<Seq<char>>
    decreases s.len(),
{
    match pos_of(s, c) {
        None => seq![s],
        Some(i) => {
            proof {
                lemma_pos_of(s, c);
            }
            seq![s.subrange(0, i)] + split_char(s.subrange(i + 1, s.len() as int), c)
        },
    }
}

pub open spec fn views(v: Seq<String>) -> Seq<Seq<char>> {
    v.map_values(|x: String| x@)
}

/// `str::split(c)`, collected.
pub fn split_on(s: &str, c: char) -> (parts: Vec<String>)
    ensures
        views(parts@) == split_char(s@, c),
{
    let v = chars_of(s);
    let n = v.len();
    let mut parts: Vec<String> = Vec::new();
    let mut start: usize = 0;
    assert(v@.subrange(0, n as int) == v@);
    loop
        invariant
            start <= n,
            n == v@.len(),
            v@ == s@,
            split_char(s@, c) == views(parts@) + split_char(v@.subrange(start as int, n as int), c),
        decreases n - start,
    {
        let rest = Ghost(v@.subrange(start as int, n as int));
        match pos_from_exec(&v, c, start) {
            None => {
                proof {
                    lemma_pos_from(v@, c, start as int);
                    lemma_pos_of(rest@, c);
                    if let Some(k) = pos_of(rest@, c) {
                        assert(rest@[k] == v@[start + k]);
                    }
                }
                let ghost before = parts@;
                parts.push(substring(s, start, n));
                assert(views(parts@) == views(before).push(rest@));
                assert(views(before).push(rest@) == views(before) + seq![rest@]);
                return parts;
            },
            Some(k) => {
                proof {
                    lemma_pos_from(v@, c, start as int);
                    lemma_pos_of(rest@, c);
                    assert(rest@[k - start] == c);
                    assert forall|j: int| 0 <= j < k - start implies rest@[j] != c by {
                        assert(rest@[j] == v@[start + j]);
                    }
                    if let Some(q) = pos_of(rest@, c) {
                        assert(rest@[q] == v@[start + q]);
                        assert(q == k - start);
                    }
                    assert(rest@.subrange(0, k - start) == v@.subrange(start as int, k as int));
                    assert(rest@.subrange(k - start + 1, rest@.len() as int) == v@.subrange(
                        k + 1,
                        n as int,
                    ));
                }
                let ghost before = parts@;
                parts.push(substring(s, start, k));
                assert(views(parts@) == views(before).push(v@.subrange(start as int, k as int)));
                assert(views(before) + split_char(rest@, c) == views(parts@) + split_char(
                    v@.subrange(k + 1, n as int),
                    c,
                ));
                start = k + 1;
            },
        }
    }
}

} // verus!

verus! {

// ---------------------------------------------------------------------------
// Decimal numbers
// ---------------------------------------------------------------------------

pub open spec fn is_digit(c: char) -> bool {
    '0' <= c && c <= '9'
}

pub open spec fn digit_char(d: nat) -> char {
    (('0' as u32) + d) as char
}

/// The decimal representation of `n` without leading zeros (`{}` of an integer).
pub open spec fn dec(n: nat) -> Seq<char>
    decreases n,
{
    if n < 10 {
        seq![digit_char(n)]
    } else {
        dec(n / 10).push(digit_char(n % 10))
    }
}

/// `{:02}`: at least two digits, padded with a leading zero.
pub open spec fn pad2(n: nat) -> Seq<char> {
    if n < 10 {
        seq!['0'] + dec(n)
    } else {
        dec(n)
    }
}

/// `{}` of a signed integer.
pub open spec fn dec_int(n: int) -> Seq<char> {
    if n < 0 {
        seq!['-'] + dec((-n) as nat)
    } else {
        dec(n as nat)
    }
}

/// The value of a sequence of decimal digits.
pub open spec fn digits_value(s: Seq<char>) -> nat
    decreases s.len(),
{
    if s.len() == 0 {
        0
    } else {
        digits_value(s.drop_last()) * 10 + ((s.last() as u32) - ('0' as u32)) as nat
    }
}

pub open spec fn all_digits(s: Seq<char>) -> bool {
    forall|i: int| 0 <= i < s.len() ==> is_digit(#[trigger] s[i])
}

/// `u64::from_str(s).ok()`: an optional `+`, then one or more ASCII digits, in range.
pub open spec fn parse_u64(s: Seq<char>) -> Option<u64> {
    let d = if s.len() > 0 && s[0] == '+' {
        s.drop_first()
    } else {
        s
    };
    if d.len() > 0 && all_digits(d) && digits_value(d) <= u64::MAX {
        Some(digits_value(d) as u64)
    } else {
        None
    }
}

fn digit_of(d: u64) -> (c: char)
    requires
        d < 10,
    ensures
        c == digit_char(d as nat),
{
    let b: u8 = d as u8;
    (b + 48) as char
}

/// Appends `dec(n)` to `out`.
pub fn push_decimal(out: &mut Vec<char>, n: u64)
    ensures
        final(out)@ == old(out)@ + dec(n as nat),
    decreases n,
{
    if n < 10 {
        out.push(digit_of(n));
    } else {
        push_decimal(out, n / 10);
        out.push(digit_of(n % 10));
    }
}

/// Appends `pad2(n)` to `out`.
pub fn push_pad2(out: &mut Vec<char>, n: u64)
    ensures
        final(out)@ == old(out)@ + pad2(n as nat),
{
    if n < 10 {
        out.push('0');
    }
    push_decimal(out, n);
}

/// Appends the characters of `s` to `out`.
pub fn push_str(out: &mut Vec<char>, s: &str)
    ensures
        final(out)@ == old(out)@ + s@,
{
    let v = chars_of(s);
    let ghost start = out@;
    let mut i: usize = 0;
    while i < v.len()
        invariant
            i <= v@.len(),
            v@ == s@,
            out@ == start + v@.take(i as int),
        decreases v@.len() - i,
    {
        out.push(v[i]);
        assert(v@.take(i + 1) == v@.take(i as int).push(v@[i as int]));
        i = i + 1;
    }
    assert(v@.take(v@.len() as int) == v@);
}

pub proof fn lemma_digits_value_prefix(s: Seq<char>, k: int)
    requires
        0 <= k <= s.len(),
        all_digits(s),
    ensures
        digits_value(s.take(k)) <= digits_value(s),
    decreases s.len(),
{
    if k < s.len() {
        assert(s.drop_last().take(k) == s.take(k));
        lemma_digits_value_prefix(s.drop_last(), k);
    } else {
        assert(s.take(k) == s);
    }
}

/// `u64::from_str(s).ok()`.
pub fn parse_u64_exec(v: &Vec<char>) -> (r: Option<u64>)
    ensures
        r == parse_u64(v@),
{
    let n = v.len();
    let start: usize = if n > 0 && v[0] == '+' {
        1
    } else {
        0
    };
    let ghost d = if v@.len() > 0 && v@[0] == '+' {
        v@.drop_first()
    } else {
        v@
    };
    assert(d == v@.subrange(start as int, n as int));
    if start == n {
        return None;
    }
    let mut acc: u64 = 0;
    let mut i: usize = start;
    while i < n
        invariant
            start <= i <= n,
            n == v@.len(),
            d == v@.subrange(start as int, n as int),
            d == (if v@.len() > 0 && v@[0] == '+' {
                v@.drop_first()
            } else {
                v@
            }),
            all_digits(d.take(i - start)),
            acc as nat == digits_value(d.take(i - start)),
        decreases n - i,
    {
        let c = v[i];
        if !('0' <= c && c <= '9') {
            assert(d[i - start] == c);
            assert(!is_digit(d[i - start]));
            assert(!all_digits(d));
            return None;
        }
        let digit: u64 = ((c as u32) - 48) as u64;
        assert(d.take(i - start + 1).drop_last() == d.take(i - start));
        assert(d.take(i - start + 1).last() == c);
        match acc.checked_mul(10) {
            None => {
                proof {
                    assert(digits_value(d.take(i - start + 1)) > u64::MAX);
                    exceed_when_prefix_exceeds(v@, d, start as int, i as int);
                }
                return None;
            },
            Some(t) => match t.checked_add(digit) {
                None => {
                    proof {
                        assert(digits_value(d.take(i - start + 1)) > u64::MAX);
                        exceed_when_prefix_exceeds(v@, d, start as int, i as int);
                    }
                    return None;
                },
                Some(u) => {
                    acc = u;
                },
            },
        }
        i = i + 1;
    }
    assert(d.take(n - start) == d);
    Some(acc)
}

proof fn exceed_when_prefix_exceeds(v: Seq<char>, d: Seq<char>, start: int, i: int)
    requires
        0 <= start <= i < v.len(),
        d == v.subrange(start, v.len() as int),
        all_digits(d.take(i - start + 1)),
        digits_value(d.take(i - start + 1)) > u64::MAX,
        d == (if v.len() > 0 && v[0] == '+' {
            v.drop_first()
        } else {
            v
        }),
    ensures
        parse_u64(v) is None,
{
    if all_digits(d) {
        lemma_digits_value_prefix(d, i - start + 1);
    }
}

} // verus!

verus! {

// ---------------------------------------------------------------------------
// Words and literal comparisons
// ---------------------------------------------------------------------------

/// The leading run of non-white-space characters.
pub open spec fn word_prefix(s: Seq<char>) -> Seq<char>
    decreases s.len(),
{
    if s.len() == 0 || is_ws(s[0]) {
        Seq::empty()
    } else {
        seq![s[0]] + word_prefix(s.drop_first())
    }
}

/// `s.split_whitespace().next()`.
pub open spec fn first_word(s: Seq<char>) -> Option<Seq<char>> {
    if trim_start(s).len() == 0 {
        None
    } else {
        Some(word_prefix(trim_start(s)))
    }
}

pub proof fn lemma_word_prefix_nonempty(s: Seq<char>)
    requires
        s.len() > 0,
        !is_ws(s[0]),
    ensures
        word_prefix(s).len() > 0,
{
}

/// Bounds of `first_word` of `v[from..]`: the word is `v[a..b]`, and `a == v.len()`
/// exactly when there is none.
pub fn first_word_bounds(v: &Vec<char>, from: usize) -> (r: (usize, usize))
    requires
        from <= v@.len(),
    ensures
        from <= r.0 <= r.1 <= v@.len(),
        trim_start(v@.subrange(from as int, v@.len() as int)) == v@.subrange(
            r.0 as int,
            v@.len() as int,
        ),
        v@.subrange(r.0 as int, r.1 as int) == word_prefix(v@.subrange(r.0 as int, v@.len() as int)),
{
    let n = v.len();
    let mut i = from;
    while i < n && is_whitespace_char(v[i])
        invariant
            from <= i <= n,
            n == v@.len(),
            trim_start(v@.subrange(from as int, n as int)) == trim_start(
                v@.subrange(i as int, n as int),
            ),
        decreases n - i,
    {
        assert(v@.subrange(i as int, n as int).drop_first() == v@.subrange(i + 1, n as int));
        i = i + 1;
    }
    let mut j = i;
    while j < n && !is_whitespace_char(v[j])
        invariant
            i <= j <= n,
            n == v@.len(),
            word_prefix(v@.subrange(i as int, n as int)) == v@.subrange(i as int, j as int)
                + word_prefix(v@.subrange(j as int, n as int)),
        decreases n - j,
    {
        assert(v@.subrange(j as int, n as int).drop_first() == v@.subrange(j + 1, n as int));
        assert(v@.subrange(i as int, j + 1) == v@.subrange(i as int, j as int) + seq![v@[j as int]]);
        j = j + 1;
    }
    assert(word_prefix(v@.subrange(j as int, n as int)) == Seq::<char>::empty());
    assert(v@.subrange(i as int, j as int) + Seq::<char>::empty() == v@.subrange(i as int, j as int));
    (i, j)
}

/// `v[a..b] == p`.
pub fn range_eq(v: &Vec<char>, a: usize, b: usize, p: &Vec<char>) -> (r: bool)
    requires
        a <= b <= v@.len(),
    ensures
        r == (v@.subrange(a as int, b as int) == p@),
{
    if b - a != p.len() {
        return false;
    }
    eq_at(v, a, p)
}

} // verus!

verus! {

/// `a == b` on string slices.
pub fn str_eq(a: &str, b: &str) -> (r: bool)
    ensures
        r == (a@ == b@),
{
    let x = chars_of(a);
    let y = chars_of(b);
    if x.len() != y.len() {
        return false;
    }
    assert(x@.subrange(0, y@.len() as int) == x@);
    eq_at(&x, 0, &y)
}

} // verus!

verus! {

/// Appends `dec_int(n)` to `out`.
pub fn push_int(out: &mut Vec<char>, n: i64)
    ensures
        final(out)@ == old(out)@ + dec_int(n as int),
{
    if n < 0 {
        out.push('-');
        let m: u64 = if n == i64::MIN {
            9223372036854775808u64
        } else {
            (-n) as u64
        };
        let ghost mid = out@;
        push_decimal(out, m);
        assert(mid == old(out)@.push('-'));
        assert(old(out)@.push('-') + dec(m as nat) == old(out)@ + (seq!['-'] + dec(m as nat)));
    } else {
        push_decimal(out, n as u64);
    }
}

} // verus!

verus! {

/// `v == s`, for a sequence of characters and a string slice.
pub fn chars_eq_str(v: &Vec<char>, s: &str) -> (r: bool)
    ensures
        r == (v@ == s@),
{
    let w = chars_of(s);
    if v.len() != w.len() {
        return false;
    }
    assert(v@.subrange(0, w@.len() as int) == v@);
    eq_at(v, 0, &w)
}

/// `to_ascii_lowercase`, over characters.
pub fn lower_chars(s: &str) -> (r: Vec<char>)
    ensures
        r@ == s@.map_values(|c: char| lower(c)),
{
    let v = chars_of(s);
    let mut out: Vec<char> = Vec::new();
    let mut i: usize = 0;
    while i < v.len()
        invariant
            i <= v@.len(),
            out@ == v@.take(i as int).map_values(|c: char| lower(c)),
        decreases v@.len() - i,
    {
        out.push(lower_char(v[i]));
        assert(v@.take(i + 1) == v@.take(i as int).push(v@[i as int]));
        i = i + 1;
    }
    assert(v@.take(v@.len() as int) == v@);
    out
}

} // verus!
