//! Text helpers: trimming, splitting, searching, and decimal numbers, each
//! stated over the sequence of characters that a string holds.

use vstd::prelude::*;
use vstd::string::StringExecFns;
use vstd::utf8::{encode_utf8, encode_utf8_decode_utf8};

verus! {

/// The character sequences that a list of strings holds.
pub open spec fn texts(v: Seq<String>) -> Seq<Seq<char>> {
    v.map_values(|s: String| s@)
}

/// The text of an optional string.
pub open spec fn opt_text(o: Option<String>) -> Option<Seq<char>> {
    match o {
        Some(s) => Some(s@),
        None => None,
    }
}

/// `String::push` appends one character.
pub assume_specification[ String::push ](s: &mut String, ch: char)
    ensures
        final(s)@ == old(s)@.push(ch),
;

/// The characters that can be stripped from, or split, a text.
#[derive(Clone, Copy)]
pub enum CharClass {
    /// Unicode `White_Space`.
    White,
    /// One given character.
    Exactly(char),
    /// White space or one of two given characters.
    WhiteOr(char, char),
}

/// Unicode's `White_Space` property.
pub open spec fn white(c: char) -> bool {
    ||| 0x9 <= c as u32 <= 0xd
    ||| c as u32 == 0x20
    ||| c as u32 == 0x85
    ||| c as u32 == 0xa0
    ||| c as u32 == 0x1680
    ||| 0x2000 <= c as u32 <= 0x200a
    ||| c as u32 == 0x2028
    ||| c as u32 == 0x2029
    ||| c as u32 == 0x202f
    ||| c as u32 == 0x205f
    ||| c as u32 == 0x3000
}

/// Whether `c` is white space.
pub fn is_white(c: char) -> (r: bool)
    ensures
        r == white(c),
{
    let n: u32 = c as u32;
    (0x9 <= n && n <= 0xd) || n == 0x20 || n == 0x85 || n == 0xa0 || n == 0x1680
        || (0x2000 <= n && n <= 0x200a) || n == 0x2028 || n == 0x2029 || n == 0x202f || n == 0x205f
        || n == 0x3000
}

impl CharClass {
    pub open spec fn has(self, c: char) -> bool {
        match self {
            CharClass::White => white(c),
            CharClass::Exactly(x) => c == x,
            CharClass::WhiteOr(x, y) => white(c) || c == x || c == y,
        }
    }

    /// Whether `c` belongs to this class.
    pub fn contains(self, c: char) -> (r: bool)
        ensures
            r == self.has(c),
    {
        match self {
            CharClass::White => is_white(c),
            CharClass::Exactly(x) => c == x,
            CharClass::WhiteOr(x, y) => is_white(c) || c == x || c == y,
        }
    }
}

/// `s` without its leading characters of class `k`.
pub open spec fn strip_start(s: Seq<char>, k: CharClass) -> Seq<char>
    decreases s.len(),
{
    if s.len() > 0 && k.has(s[0]) {
        strip_start(s.drop_first(), k)
    } else {
        s
    }
}

/// `s` without its trailing characters of class `k`.
pub open spec fn strip_end(s: Seq<char>, k: CharClass) -> Seq<char>
    decreases s.len(),
{
    if s.len() > 0 && k.has(s.last()) {
        strip_end(s.drop_last(), k)
    } else {
        s
    }
}

/// `s` without its leading and trailing characters of class `k`.
pub open spec fn strip_both(s: Seq<char>, k: CharClass) -> Seq<char> {
    strip_end(strip_start(s, k), k)
}

/// `s` without surrounding white space.
pub open spec fn trimmed(s: Seq<char>) -> Seq<char> {
    strip_both(s, CharClass::White)
}

/// `s` cut at every character of class `k`: characters join the last piece,
/// a separator opens a new one.
pub open spec fn split_on(s: Seq<char>, k: CharClass) -> Seq<Seq<char>>
    decreases s.len(),
{
    if s.len() == 0 {
        seq![Seq::<char>::empty()]
    } else {
        let head = split_on(s.drop_last(), k);
        if k.has(s.last()) {
            head.push(Seq::<char>::empty())
        } else {
            head.drop_last().push(head.last().push(s.last()))
        }
    }
}

/// A line without the carriage return before its line feed.
pub open spec fn without_cr(l: Seq<char>) -> Seq<char> {
    if l.len() > 0 && l.last() == '\r' {
        l.drop_last()
    } else {
        l
    }
}

/// The lines of a text: `\n` or `\r\n` ends a line, the last one needs no end.
pub open spec fn lines_of(s: Seq<char>) -> Seq<Seq<char>> {
    let p = split_on(s, CharClass::Exactly('\n'));
    let ended = p.drop_last().map_values(|l: Seq<char>| without_cr(l));
    if p.last().len() == 0 {
        ended
    } else {
        ended.push(p.last())
    }
}

/// The pieces of `s` between runs of characters of class `k`.
pub open spec fn words_of(s: Seq<char>, k: CharClass) -> Seq<Seq<char>> {
    split_on(s, k).filter(|p: Seq<char>| p.len() > 0)
}

/// `pat` occurs in `s` at position `i`.
pub open spec fn occurs_at(s: Seq<char>, pat: Seq<char>, i: int) -> bool {
    0 <= i <= s.len() - pat.len() && s.subrange(i, i + pat.len()) == pat
}

/// `pat` occurs somewhere in `s`.
pub open spec fn has_text(s: Seq<char>, pat: Seq<char>) -> bool {
    exists|i: int| occurs_at(s, pat, i)
}

/// The texts one after the other with `sep` between them.
pub open spec fn joined(parts: Seq<Seq<char>>, sep: Seq<char>) -> Seq<char>
    decreases parts.len(),
{
    if parts.len() == 0 {
        Seq::empty()
    } else if parts.len() == 1 {
        parts[0]
    } else {
        joined(parts.drop_last(), sep) + sep + parts.last()
    }
}

/// `A`-`Z` as `a`-`z`, everything else unchanged.
pub open spec fn ascii_lower(c: char) -> char {
    if 'A' <= c <= 'Z' {
        ((c as u32) + 32) as char
    } else {
        c
    }
}

/// The texts are equal but for the case of ASCII letters.
pub open spec fn same_ignoring_case(a: Seq<char>, b: Seq<char>) -> bool {
    &&& a.len() == b.len()
    &&& forall|i: int| 0 <= i < a.len() ==> ascii_lower(a[i]) == ascii_lower(b[i])
}

pub open spec fn digit(c: char) -> bool {
    '0' <= c <= '9'
}

pub open spec fn all_digits(s: Seq<char>) -> bool {
    forall|i: int| 0 <= i < s.len() ==> digit(s[i])
}

/// The digit `d` as a character.
pub open spec fn digit_char(d: nat) -> char {
    (48 + d) as char
}

/// The decimal digits of `n`, without leading zeros.
pub open spec fn decimal(n: nat) -> Seq<char>
    decreases n,
{
    if n < 10 {
        seq![digit_char(n)]
    } else {
        decimal(n / 10).push(digit_char(n % 10))
    }
}

/// `s` filled up on the left with `fill` to at least `width` characters.
pub open spec fn padded(s: Seq<char>, width: nat, fill: char) -> Seq<char>
    decreases width - s.len(),
{
    if s.len() >= width {
        s
    } else {
        padded(seq![fill] + s, width, fill)
    }
}

/// The number that a text of decimal digits writes.
pub open spec fn number(s: Seq<char>) -> nat
    decreases s.len(),
{
    if s.len() == 0 {
        0
    } else {
        number(s.drop_last()) * 10 + ((s.last() as u32 - 48) as nat)
    }
}

/// The `u64` that a text writes: digits with an optional `+` in front.
pub open spec fn u64_of(s: Seq<char>) -> Option<u64> {
    let d = if s.len() > 0 && s[0] == '+' {
        s.drop_first()
    } else {
        s
    };
    if d.len() > 0 && all_digits(d) && number(d) <= u64::MAX {
        Some(number(d) as u64)
    } else {
        None
    }
}

/// The characters of a text.
pub fn to_chars(s: &str) -> (r: Vec<char>)
    ensures
        r@ == s@,
{
    let mut v: Vec<char> = Vec::new();
    for c in it: s.chars()
        invariant
            v@ == it.seq().take(it.index()),
            it.seq() == s@,
    {
        v.push(c);
    }
    v
}

/// The text made of the characters `v[from..to]`.
pub fn from_chars(v: &Vec<char>, from: usize, to: usize) -> (r: String)
    requires
        from <= to <= v@.len(),
    ensures
        r@ == v@.subrange(from as int, to as int),
{
    let mut s: String = String::new();
    let mut i: usize = from;
    while i < to
        invariant
            from <= i <= to <= v@.len(),
            s@ == v@.subrange(from as int, i as int),
        decreases to - i,
    {
        s.push(v[i]);
        i = i + 1;
        assert(v@.subrange(from as int, i as int) =~= v@.subrange(from as int, i - 1).push(
            v@[i - 1],
        ));
    }
    s
}

/// Whether two texts are equal.
pub fn same(a: &str, b: &str) -> (r: bool)
    ensures
        r == (a@ == b@),
{
    let x = a.as_bytes();
    let y = b.as_bytes();
    if x.len() != y.len() {
        return false;
    }
    let mut i: usize = 0;
    while i < x.len()
        invariant
            i <= x@.len() == y@.len(),
            x@ == encode_utf8(a@),
            y@ == encode_utf8(b@),
            forall|j: int| 0 <= j < i ==> x@[j] == y@[j],
        decreases x@.len() - i,
    {
        if x[i] != y[i] {
            return false;
        }
        i = i + 1;
    }
    proof {
        assert(x@ =~= y@);
        encode_utf8_decode_utf8(a@);
        encode_utf8_decode_utf8(b@);
    }
    true
}

/// The part of `s` that is left when characters of class `k` are stripped
/// from both ends.
pub fn strip(s: &str, k: CharClass) -> (r: String)
    ensures
        r@ == strip_both(s@, k),
{
    let v = to_chars(s);
    let n: usize = v.len();
    let mut a: usize = 0;
    assert(v@.subrange(0, n as int) =~= v@);
    while a < n && k.contains(v[a])
        invariant
            a <= n == v@.len(),
            strip_start(v@, k) == strip_start(v@.subrange(a as int, n as int), k),
        decreases n - a,
    {
        assert(v@.subrange(a as int, n as int).drop_first() =~= v@.subrange(a + 1, n as int));
        a = a + 1;
    }
    assert(strip_start(v@, k) == v@.subrange(a as int, n as int));
    let mut b: usize = n;
    while a < b && k.contains(v[b - 1])
        invariant
            a <= b <= n == v@.len(),
            strip_end(v@.subrange(a as int, n as int), k) == strip_end(
                v@.subrange(a as int, b as int),
                k,
            ),
        decreases b,
    {
        assert(v@.subrange(a as int, b as int).drop_last() =~= v@.subrange(a as int, b - 1));
        b = b - 1;
    }
    from_chars(&v, a, b)
}

/// `s` without surrounding white space.
pub fn trim(s: &str) -> (r: String)
    ensures
        r@ == trimmed(s@),
{
    strip(s, CharClass::White)
}

/// The pieces of `s` between the characters of class `k`.
pub fn split(s: &str, k: CharClass) -> (r: Vec<String>)
    ensures
        texts(r@) == split_on(s@, k),
        r@.len() > 0,
{
    let v = to_chars(s);
    let mut done: Vec<String> = Vec::new();
    let mut cur: String = String::new();
    let mut i: usize = 0;
    assert(v@.take(0) =~= Seq::<char>::empty());
    assert(texts(done@).push(cur@) =~= seq![Seq::<char>::empty()]);
    while i < v.len()
        invariant
            i <= v@.len(),
            texts(done@).push(cur@) == split_on(v@.take(i as int), k),
        decreases v@.len() - i,
    {
        let c = v[i];
        let ghost before = texts(done@).push(cur@);
        proof {
            assert(v@.take(i + 1).drop_last() =~= v@.take(i as int));
            assert(v@.take(i + 1).last() == c);
            assert(before.drop_last() =~= texts(done@));
        }
        if k.contains(c) {
            done.push(cur);
            cur = String::new();
            assert(texts(done@) =~= before);
        } else {
            cur.push(c);
        }
        i = i + 1;
    }
    assert(v@.take(i as int) =~= v@);
    let ghost d0 = done@;
    done.push(cur);
    assert(texts(done@) =~= texts(d0).push(cur@));
    done
}

/// The lines of a text.
pub fn lines(s: &str) -> (r: Vec<String>)
    ensures
        texts(r@) == lines_of(s@),
{
    let p = split(s, CharClass::Exactly('\n'));
    let n: usize = p.len();
    let ghost ps = split_on(s@, CharClass::Exactly('\n'));
    let ghost ended = ps.drop_last().map_values(|l: Seq<char>| without_cr(l));
    let mut out: Vec<String> = Vec::new();
    let mut i: usize = 0;
    while i + 1 < n
        invariant
            n == p@.len() == ps.len(),
            n > 0,
            i <= n - 1,
            texts(p@) == ps,
            ended == ps.drop_last().map_values(|l: Seq<char>| without_cr(l)),
            texts(out@) == ended.take(i as int),
        decreases n - i,
    {
        let v = to_chars(p[i].as_str());
        assert(v@ == ps[i as int]);
        let m: usize = v.len();
        let line = if m > 0 && v[m - 1] == '\r' {
            from_chars(&v, 0, m - 1)
        } else {
            from_chars(&v, 0, m)
        };
        assert(line@ =~= without_cr(ps[i as int]));
        let ghost o0 = out@;
        out.push(line);
        i = i + 1;
        assert(texts(out@) =~= texts(o0).push(line@));
        assert(ended.take(i as int) =~= ended.take(i - 1).push(ended[i - 1]));
    }
    assert(ended.take(i as int) =~= ended);
    if !p[n - 1].as_str().is_empty() {
        let ghost o0 = out@;
        let last = p[n - 1].clone();
        out.push(last);
        assert(texts(out@) =~= texts(o0).push(last@));
    }
    out
}

/// The non-empty pieces of `s` between the characters of class `k`.
pub fn words(s: &str, k: CharClass) -> (r: Vec<String>)
    ensures
        texts(r@) == words_of(s@, k),
{
    let p = split(s, k);
    let ghost ps = split_on(s@, k);
    let ghost keep = |p: Seq<char>| p.len() > 0;
    let mut out: Vec<String> = Vec::new();
    let mut i: usize = 0;
    assert(ps.take(0) =~= Seq::<Seq<char>>::empty());
    proof {
        reveal(Seq::filter);
    }
    while i < p.len()
        invariant
            i <= p@.len(),
            texts(p@) == ps,
            keep == (|p: Seq<char>| p.len() > 0),
            texts(out@) == ps.take(i as int).filter(keep),
        decreases p@.len() - i,
    {
        proof {
            reveal(Seq::filter);
            assert(ps.take(i + 1).drop_last() =~= ps.take(i as int));
            assert(ps[i as int] == p@[i as int]@);
        }
        if !p[i].as_str().is_empty() {
            let ghost o0 = out@;
            out.push(p[i].clone());
            assert(texts(out@) =~= texts(o0).push(p@[i as int]@));
        }
        i = i + 1;
    }
    assert(ps.take(i as int) =~= ps);
    out
}

/// Whether `pat` occurs in `v` at position `i`.
fn matches_at(v: &Vec<char>, pat: &Vec<char>, i: usize) -> (r: bool)
    requires
        i + pat@.len() <= v@.len(),
    ensures
        r == occurs_at(v@, pat@, i as int),
{
    let n: usize = v.len();
    let mut j: usize = 0;
    while j < pat.len()
        invariant
            j <= pat@.len(),
            i + pat@.len() <= v@.len() == n,
            forall|k: int| 0 <= k < j ==> v@[i + k] == pat@[k],
        decreases pat@.len() - j,
    {
        if v[i + j] != pat[j] {
            assert(v@.subrange(i as int, i + pat@.len())[j as int] != pat@[j as int]);
            return false;
        }
        j = j + 1;
    }
    assert(v@.subrange(i as int, i + pat@.len()) =~= pat@);
    true
}

/// The first position at which `pat` occurs in `s`.
pub open spec fn first_at(s: Seq<char>, pat: Seq<char>, i: int) -> bool {
    occurs_at(s, pat, i) && forall|j: int| 0 <= j < i ==> !occurs_at(s, pat, j)
}

/// The first position of `pat` in `s`, counted in characters.
pub fn find(s: &str, pat: &str) -> (r: Option<usize>)
    ensures
        match r {
            Some(i) => first_at(s@, pat@, i as int),
            None => !has_text(s@, pat@),
        },
{
    let v = to_chars(s);
    let p = to_chars(pat);
    if p.len() > v.len() {
        return None;
    }
    let mut i: usize = 0;
    while i <= v.len() - p.len()
        invariant
            i <= v@.len() - p@.len() + 1,
            p@.len() <= v@.len(),
            v@ == s@,
            p@ == pat@,
            forall|j: int| 0 <= j < i ==> !occurs_at(v@, p@, j),
        decreases v@.len() - i + 1,
    {
        if matches_at(&v, &p, i) {
            return Some(i);
        }
        if i == v.len() - p.len() {
            return None;
        }
        i = i + 1;
    }
    None
}

/// Whether `pat` occurs in `s`.
pub fn contains(s: &str, pat: &str) -> (r: bool)
    ensures
        r == has_text(s@, pat@),
{
    match find(s, pat) {
        Some(i) => {
            assert(occurs_at(s@, pat@, i as int));
            true
        },
        None => false,
    }
}

/// What follows `prefix` in `s`, if `s` starts with it.
pub fn strip_prefix(s: &str, prefix: &str) -> (r: Option<String>)
    ensures
        match r {
            Some(rest) => s@ == prefix@ + rest@,
            None => !prefix@.is_prefix_of(s@),
        },
{
    let v = to_chars(s);
    let p = to_chars(prefix);
    if p.len() <= v.len() && matches_at(&v, &p, 0) {
        let rest = from_chars(&v, p.len(), v.len());
        assert(s@ =~= prefix@ + rest@);
        Some(rest)
    } else {
        assert(!prefix@.is_prefix_of(s@)) by {
            if prefix@.is_prefix_of(s@) {
                assert(occurs_at(v@, p@, 0));
            }
        }
        None
    }
}

/// Whether `s` starts with `prefix`.
pub fn starts_with(s: &str, prefix: &str) -> (r: bool)
    ensures
        r == prefix@.is_prefix_of(s@),
{
    match strip_prefix(s, prefix) {
        Some(rest) => {
            assert(prefix@ =~= s@.subrange(0, prefix@.len() as int));
            true
        },
        None => false,
    }
}

/// `s` without `suffix` at its end, as often as it stands there.
pub open spec fn without_suffixes(s: Seq<char>, suffix: Seq<char>) -> Seq<char>
    decreases s.len(),
{
    if suffix.len() > 0 && suffix.is_suffix_of(s) {
        without_suffixes(s.take(s.len() - suffix.len()), suffix)
    } else {
        s
    }
}

/// `s` without the trailing occurrences of a non-empty `suffix`.
pub fn trim_end_matches(s: &str, suffix: &str) -> (r: String)
    ensures
        r@ == without_suffixes(s@, suffix@),
{
    let v = to_chars(s);
    let p = to_chars(suffix);
    let m: usize = p.len();
    let mut n: usize = v.len();
    assert(v@.take(n as int) =~= v@);
    while m > 0 && m <= n && matches_at(&v, &p, n - m)
        invariant
            n <= v@.len(),
            m == p@.len(),
            without_suffixes(v@, p@) == without_suffixes(v@.take(n as int), p@),
        decreases n,
    {
        proof {
            let cur = v@.take(n as int);
            assert(cur.subrange(cur.len() - m, cur.len() as int) =~= v@.subrange(
                n - m,
                n as int,
            ));
            assert(p@.is_suffix_of(cur));
            assert(cur.take(cur.len() - m) =~= v@.take(n - m));
        }
        n = n - m;
    }
    proof {
        let cur = v@.take(n as int);
        if m > 0 && m <= n {
            assert(cur.subrange(cur.len() - m, cur.len() as int) =~= v@.subrange(
                n - m,
                n as int,
            ));
        }
        assert(v@.subrange(0, n as int) =~= cur);
    }
    from_chars(&v, 0, n)
}

/// The texts one after the other with `sep` between them.
pub fn join(parts: &Vec<String>, sep: &str) -> (r: String)
    ensures
        r@ == joined(texts(parts@), sep@),
{
    let ghost ps = texts(parts@);
    let mut out: String = String::new();
    let mut i: usize = 0;
    assert(ps.take(0) =~= Seq::<Seq<char>>::empty());
    while i < parts.len()
        invariant
            i <= parts@.len(),
            ps == texts(parts@),
            out@ == joined(ps.take(i as int), sep@),
        decreases parts@.len() - i,
    {
        proof {
            assert(ps.take(i + 1).drop_last() =~= ps.take(i as int));
            assert(ps.take(i + 1).last() == parts@[i as int]@);
        }
        if i > 0 {
            out.append(sep);
        }
        out.append(parts[i].as_str());
        if i == 0 {
            assert(out@ =~= ps.take(1)[0]);
        }
        i = i + 1;
    }
    assert(ps.take(i as int) =~= ps);
    out
}

/// The lower-case form of an ASCII letter.
pub fn lower(c: char) -> (r: char)
    ensures
        r == ascii_lower(c),
{
    if 'A' <= c && c <= 'Z' {
        let n: u8 = c as u8;
        (n + 32) as char
    } else {
        c
    }
}

/// Whether two texts are equal but for the case of ASCII letters.
pub fn eq_ignore_ascii_case(a: &str, b: &str) -> (r: bool)
    ensures
        r == same_ignoring_case(a@, b@),
{
    let v = to_chars(a);
    let w = to_chars(b);
    if v.len() != w.len() {
        return false;
    }
    let mut i: usize = 0;
    while i < v.len()
        invariant
            i <= v@.len() == w@.len(),
            v@ == a@,
            w@ == b@,
            forall|j: int| 0 <= j < i ==> ascii_lower(v@[j]) == ascii_lower(w@[j]),
        decreases v@.len() - i,
    {
        if lower(v[i]) != lower(w[i]) {
            return false;
        }
        i = i + 1;
    }
    true
}

/// Whether every character of `s` is an ASCII digit.
pub fn is_all_digits(s: &str) -> (r: bool)
    ensures
        r == all_digits(s@),
{
    let v = to_chars(s);
    let mut i: usize = 0;
    while i < v.len()
        invariant
            i <= v@.len(),
            v@ == s@,
            forall|j: int| 0 <= j < i ==> digit(v@[j]),
        decreases v@.len() - i,
    {
        if !('0' <= v[i] && v[i] <= '9') {
            return false;
        }
        i = i + 1;
    }
    true
}

/// The digits of `n`.
pub fn to_decimal(n: u64) -> (r: String)
    ensures
        r@ == decimal(n as nat),
    decreases n,
{
    let d: u8 = (n % 10) as u8;
    let c: char = (48 + d) as char;
    let mut s = if n < 10 {
        String::new()
    } else {
        to_decimal(n / 10)
    };
    s.push(c);
    assert(n < 10 ==> s@ =~= seq![digit_char(n as nat)]);
    s
}

/// `s` filled up on the left with `fill` to at least `width` characters.
pub fn pad(s: &str, width: usize, fill: char) -> (r: String)
    ensures
        r@ == padded(s@, width as nat, fill),
{
    let mut out: Vec<char> = to_chars(s);
    let ghost first = out@;
    while out.len() < width
        invariant
            padded(first, width as nat, fill) == padded(out@, width as nat, fill),
        decreases width - out@.len(),
    {
        let ghost o = out@;
        out.insert(0, fill);
        assert(out@ =~= seq![fill] + o);
    }
    let n: usize = out.len();
    assert(out@.subrange(0, n as int) =~= out@);
    from_chars(&out, 0, n)
}

/// Numbers grow with the digits that follow.
proof fn lemma_number_grows(s: Seq<char>, n: int)
    requires
        0 <= n <= s.len(),
        all_digits(s),
    ensures
        number(s.take(n)) <= number(s),
    decreases s.len() - n,
{
    if n < s.len() {
        lemma_number_grows(s, n + 1);
        assert(s.take(n + 1).drop_last() =~= s.take(n));
    } else {
        assert(s.take(n) =~= s);
    }
}

/// The `u64` that a text writes, if it writes one.
pub fn parse_u64(s: &str) -> (r: Option<u64>)
    ensures
        r == u64_of(s@),
{
    let v = to_chars(s);
    let start: usize = if v.len() > 0 && v[0] == '+' { 1 } else { 0 };
    let ghost d = if s@.len() > 0 && s@[0] == '+' {
        s@.drop_first()
    } else {
        s@
    };
    assert(d =~= v@.skip(start as int));
    if v.len() == start {
        return None;
    }
    let mut n: u64 = 0;
    let mut i: usize = start;
    assert(d.take(0) =~= Seq::<char>::empty());
    while i < v.len()
        invariant
            start <= i <= v@.len(),
            start < v@.len(),
            d == v@.skip(start as int),
            d == (if s@.len() > 0 && s@[0] == '+' {
                s@.drop_first()
            } else {
                s@
            }),
            n == number(d.take(i - start)),
            forall|j: int| 0 <= j < i - start ==> digit(d[j]),
        decreases v@.len() - i,
    {
        let c = v[i];
        assert(c == d[i - start]);
        if !('0' <= c && c <= '9') {
            return None;
        }
        let k: u64 = (c as u32 - 48) as u64;
        proof {
            assert(d.take(i - start + 1).drop_last() =~= d.take(i - start));
            assert(number(d.take(i - start + 1)) == n * 10 + k);
            if all_digits(d) {
                lemma_number_grows(d, i - start + 1);
            }
        }
        if n > (u64::MAX - k) / 10 {
            assert(n * 10 + k > u64::MAX);
            return None;
        }
        n = n * 10 + k;
        i = i + 1;
    }
    assert(d.take(i - start) =~= d);
    Some(n)
}

/// The text that `str::to_lowercase` makes of a text.
pub uninterp spec fn lowercase(s: Seq<char>) -> Seq<char>;

/// `str::to_lowercase`: the lower-case form of a text by Unicode's rules, as
/// [`lowercase`] names it.
#[verifier::external_body]
pub(crate) fn to_lowercase(s: &str) -> (r: String)
    ensures
        r@ == lowercase(s@),
{
    s.to_lowercase()
}

/// The lines of a text that ends with a line are followed by those of the text
/// after it.
pub proof fn lines_follow_lines(a: Seq<char>, b: Seq<char>)
    requires
        a.len() > 0 ==> a.last() == '\n',
    ensures
        lines_of(a + b) == lines_of(a) + lines_of(b),
{
    let k = CharClass::Exactly('\n');
    if a.len() == 0 {
        assert(a + b =~= b);
        assert(split_on(a, k) =~= seq![Seq::<char>::empty()]);
        assert(lines_of(a) =~= Seq::<Seq<char>>::empty());
        assert(lines_of(a) + lines_of(b) =~= lines_of(b));
    } else {
        let s = a.drop_last();
        let e = Seq::<char>::empty();
        assert(a =~= s.push('\n'));
        split_at_separator(s, b, '\n');
        split_at_separator(s, e, '\n');
        assert(s.push('\n') + e =~= a);
        pieces_hold_no_separator(b, '\n');
        let (ps, pb) = (split_on(s, k), split_on(b, k));
        let cut = |l: Seq<char>| without_cr(l);
        assert(split_on(e, k) =~= seq![e]);
        assert((ps + seq![e]).drop_last() =~= ps);
        assert(lines_of(a) =~= ps.map_values(cut));
        assert((ps + pb).last() == pb.last());
        assert((ps + pb).drop_last() =~= ps + pb.drop_last());
        assert((ps + pb.drop_last()).map_values(cut) =~= ps.map_values(cut)
            + pb.drop_last().map_values(cut));
        assert(lines_of(a + b) =~= lines_of(a) + lines_of(b));
    }
}

/// The decimal digits of a number write that number.
pub proof fn decimal_reads_back(n: nat)
    ensures
        decimal(n).len() > 0,
        all_digits(decimal(n)),
        number(decimal(n)) == n,
    decreases n,
{
    let d = decimal(n);
    if n >= 10 {
        decimal_reads_back(n / 10);
        assert(d.drop_last() =~= decimal(n / 10));
    } else {
        assert(d.drop_last() =~= Seq::<char>::empty());
        assert(number(d.drop_last()) == 0);
    }
    assert(d.last() == digit_char(n % 10));
    assert forall|i: int| 0 <= i < d.len() implies digit(d[i]) by {
        if i < d.len() - 1 {
            assert(d[i] == d.drop_last()[i]);
        }
    }
}

/// Splitting leaves at least one piece, and no piece holds the separator.
pub proof fn pieces_hold_no_separator(s: Seq<char>, c: char)
    ensures
        split_on(s, CharClass::Exactly(c)).len() > 0,
        forall|i: int|
            0 <= i < split_on(s, CharClass::Exactly(c)).len() ==> !(#[trigger] split_on(
                s,
                CharClass::Exactly(c),
            )[i]).contains(c),
    decreases s.len(),
{
    let k = CharClass::Exactly(c);
    if s.len() > 0 {
        pieces_hold_no_separator(s.drop_last(), c);
        let head = split_on(s.drop_last(), k);
        let all = split_on(s, k);
        assert forall|i: int| 0 <= i < all.len() implies !(#[trigger] all[i]).contains(c) by {
            if k.has(s.last()) {
                if i < head.len() {
                    assert(all[i] == head[i]);
                } else {
                    assert(all[i] =~= Seq::<char>::empty());
                }
            } else if i < head.len() - 1 {
                assert(all[i] == head[i]);
            } else {
                assert(!head[i].contains(c));
                assert(all[i] == head[i].push(s.last()));
                if all[i].contains(c) {
                    let j = choose|j: int| 0 <= j < all[i].len() && all[i][j] == c;
                    assert(j < head[i].len());
                    assert(head[i][j] == c);
                }
            }
        }
    }
}

/// What a separator stands between is split there.
pub proof fn split_at_separator(s: Seq<char>, t: Seq<char>, c: char)
    ensures
        split_on(s.push(c) + t, CharClass::Exactly(c)) == split_on(s, CharClass::Exactly(c))
            + split_on(t, CharClass::Exactly(c)),
    decreases t.len(),
{
    let k = CharClass::Exactly(c);
    pieces_hold_no_separator(t, c);
    if t.len() == 0 {
        assert(s.push(c) + t =~= s.push(c));
        assert(s.push(c).drop_last() =~= s);
        assert(split_on(s.push(c), k) =~= split_on(s, k) + split_on(t, k));
    } else {
        let u = t.drop_last();
        split_at_separator(s, u, c);
        pieces_hold_no_separator(u, c);
        let whole = s.push(c) + t;
        assert(whole.drop_last() =~= s.push(c) + u);
        assert(whole.last() == t.last());
        let a = split_on(s, k);
        let b = split_on(u, k);
        if k.has(t.last()) {
            assert((a + b).push(Seq::empty()) =~= a + b.push(Seq::empty()));
        } else {
            assert((a + b).last() == b.last());
            assert((a + b).drop_last().push(b.last().push(t.last())) =~= a + b.drop_last().push(
                b.last().push(t.last()),
            ));
        }
    }
}

/// A text without the separator is one piece.
pub proof fn unsplit_text(s: Seq<char>, c: char)
    requires
        !s.contains(c),
    ensures
        split_on(s, CharClass::Exactly(c)) == seq![s],
    decreases s.len(),
{
    if s.len() > 0 {
        let q = s.drop_last();
        assert(!q.contains(c)) by {
            if q.contains(c) {
                let j = choose|j: int| 0 <= j < q.len() && q[j] == c;
                assert(s[j] == c);
            }
        }
        assert(s.last() != c) by {
            if s.last() == c {
                assert(s[s.len() - 1] == c);
            }
        }
        unsplit_text(q, c);
        assert(seq![q].drop_last() =~= Seq::<Seq<char>>::empty());
        assert(q.push(s.last()) =~= s);
    } else {
        assert(s =~= Seq::<char>::empty());
    }
}

/// A text that can stand on a line of its own.
pub open spec fn fits_a_line(s: Seq<char>) -> bool {
    s.len() > 0 && !s.contains('\n') && s.last() != '\r'
}

proof fn lemma_joined_lines_split(parts: Seq<Seq<char>>)
    requires
        parts.len() > 0,
        forall|i: int| 0 <= i < parts.len() ==> !(#[trigger] parts[i]).contains('\n'),
    ensures
        split_on(joined(parts, "\n"@), CharClass::Exactly('\n')) == parts,
    decreases parts.len(),
{
    reveal_strlit("\n");
    let last = parts[parts.len() - 1];
    unsplit_text(last, '\n');
    if parts.len() == 1 {
        assert(parts =~= seq![last]);
    } else {
        let rest = parts.drop_last();
        assert forall|i: int| 0 <= i < rest.len() implies !(#[trigger] rest[i]).contains('\n') by {
            assert(rest[i] == parts[i]);
        }
        lemma_joined_lines_split(rest);
        let head = joined(rest, "\n"@);
        assert("\n"@ =~= seq!['\n']);
        assert(head + "\n"@ + last =~= head.push('\n') + last);
        split_at_separator(head, last, '\n');
        assert(rest + seq![last] =~= parts);
    }
}

/// Texts that are written on a line each are read back line by line.
pub proof fn joined_lines_read_back(parts: Seq<Seq<char>>)
    requires
        forall|i: int| 0 <= i < parts.len() ==> fits_a_line(#[trigger] parts[i]),
    ensures
        lines_of(joined(parts, "\n"@)) == parts,
{
    let s = joined(parts, "\n"@);
    if parts.len() == 0 {
        let one = split_on(s, CharClass::Exactly('\n'));
        assert(one.last().len() == 0);
        assert(lines_of(s) =~= parts);
    } else {
        lemma_joined_lines_split(parts);
        let ended = parts.drop_last().map_values(|l: Seq<char>| without_cr(l));
        assert forall|i: int| 0 <= i < ended.len() implies ended[i] == parts[i] by {
            assert(fits_a_line(parts[i]));
        }
        assert(fits_a_line(parts[parts.len() - 1]));
        assert(lines_of(s) =~= parts);
    }
}

/// The white space of Unicode.
pub proof fn white_space_is_unicodes(c: char)
    ensures
        white(c) <==> set![
            9int,
            10,
            11,
            12,
            13,
            32,
            0x85,
            0xa0,
            0x1680,
            0x2000,
            0x2001,
            0x2002,
            0x2003,
            0x2004,
            0x2005,
            0x2006,
            0x2007,
            0x2008,
            0x2009,
            0x200a,
            0x2028,
            0x2029,
            0x202f,
            0x205f,
            0x3000,
        ].contains(c as int),
{
}

/// All of the characters of `s` belong to the class.
pub open spec fn all_in(s: Seq<char>, k: CharClass) -> bool {
    forall|i: int| 0 <= i < s.len() ==> k.has(#[trigger] s[i])
}

/// None of the characters of `s` belongs to the class.
pub open spec fn none_in(s: Seq<char>, k: CharClass) -> bool {
    forall|i: int| 0 <= i < s.len() ==> !k.has(#[trigger] s[i])
}

proof fn lemma_strip_start(a: Seq<char>, t: Seq<char>, k: CharClass)
    requires
        all_in(a, k),
        t.len() == 0 || !k.has(t[0]),
    ensures
        strip_start(a + t, k) == t,
    decreases a.len(),
{
    if a.len() == 0 {
        assert(a + t =~= t);
    } else {
        assert(k.has(a[0]));
        assert((a + t).drop_first() =~= a.drop_first() + t);
        assert forall|i: int| 0 <= i < a.drop_first().len() implies k.has(
            #[trigger] a.drop_first()[i],
        ) by {
            assert(a.drop_first()[i] == a[i + 1]);
        }
        lemma_strip_start(a.drop_first(), t, k);
    }
}

proof fn lemma_strip_end(t: Seq<char>, b: Seq<char>, k: CharClass)
    requires
        all_in(b, k),
        t.len() == 0 || !k.has(t.last()),
    ensures
        strip_end(t + b, k) == t,
    decreases b.len(),
{
    if b.len() == 0 {
        assert(t + b =~= t);
    } else {
        assert(k.has(b[b.len() - 1]));
        assert((t + b).drop_last() =~= t + b.drop_last());
        assert forall|i: int| 0 <= i < b.drop_last().len() implies k.has(
            #[trigger] b.drop_last()[i],
        ) by {
            assert(b.drop_last()[i] == b[i]);
        }
        lemma_strip_end(t, b.drop_last(), k);
    }
}

/// Stripping takes the characters of the class off both ends, and nothing from
/// what stands between them.
pub proof fn stripping_keeps_the_middle(a: Seq<char>, t: Seq<char>, b: Seq<char>, k: CharClass)
    requires
        all_in(a, k),
        all_in(b, k),
        t.len() > 0,
        !k.has(t[0]),
        !k.has(t.last()),
    ensures
        strip_both(a + t + b, k) == t,
        strip_both(a, k).len() == 0,
{
    assert(a + t + b =~= a + (t + b));
    lemma_strip_start(a, t + b, k);
    lemma_strip_end(t, b, k);
    lemma_strip_start(a, Seq::empty(), k);
    assert(a + Seq::<char>::empty() =~= a);
}

/// Trimming takes the white space off both ends, and nothing else.
pub proof fn trimming_keeps_the_middle(a: Seq<char>, t: Seq<char>, b: Seq<char>)
    requires
        forall|i: int| 0 <= i < a.len() ==> white(#[trigger] a[i]),
        forall|i: int| 0 <= i < b.len() ==> white(#[trigger] b[i]),
        t.len() > 0,
        !white(t[0]),
        !white(t.last()),
    ensures
        trimmed(a + t + b) == t,
        trimmed(a).len() == 0,
{
    assert(all_in(a, CharClass::White));
    assert(all_in(b, CharClass::White));
    stripping_keeps_the_middle(a, t, b, CharClass::White);
}

/// Two characters that differ at most in the case of an ASCII letter.
pub open spec fn same_letter(a: char, b: char) -> bool {
    ||| a == b
    ||| 65 <= a as int <= 90 && b as int == a as int + 32
    ||| 65 <= b as int <= 90 && a as int == b as int + 32
}

/// Texts that agree but for the case of ASCII letters are those that have the
/// same letter at every place.
pub proof fn case_is_all_that_differs(a: Seq<char>, b: Seq<char>)
    ensures
        same_ignoring_case(a, b) <==> a.len() == b.len() && forall|i: int|
            0 <= i < a.len() ==> #[trigger] same_letter(a[i], b[i]),
{
    assert forall|x: char, y: char| #[trigger] same_letter(x, y) == (ascii_lower(x) == ascii_lower(
        y,
    )) by {
        let (m, n) = (x as u32, y as u32);
        if 'A' <= x <= 'Z' {
            assert(ascii_lower(x) as int == x as int + 32);
        }
        if 'A' <= y <= 'Z' {
            assert(ascii_lower(y) as int == y as int + 32);
        }
        assert(ascii_lower(x) as int == ascii_lower(y) as int ==> ascii_lower(x) == ascii_lower(y));
    }
    if same_ignoring_case(a, b) {
        assert forall|i: int| 0 <= i < a.len() implies #[trigger] same_letter(a[i], b[i]) by {
            assert(ascii_lower(a[i]) == ascii_lower(b[i]));
        }
    }
    if a.len() == b.len() && forall|i: int|
        0 <= i < a.len() ==> #[trigger] same_letter(a[i], b[i]) {
        assert forall|i: int| 0 <= i < a.len() implies ascii_lower(a[i]) == ascii_lower(b[i]) by {
            assert(same_letter(a[i], b[i]));
        }
    }
}

/// A number is written without leading zeros.
pub proof fn numbers_have_no_leading_zero(n: nat)
    ensures
        n > 0 ==> decimal(n)[0] != '0',
        n == 0 ==> decimal(n) == seq!['0'],
    decreases n,
{
    if n >= 10 {
        numbers_have_no_leading_zero(n / 10);
        decimal_reads_back(n / 10);
        assert(decimal(n)[0] == decimal(n / 10)[0]);
    }
}

/// The digits of a number count tens, from the left.
pub proof fn digits_count_tens(s: Seq<char>)
    requires
        all_digits(s),
    ensures
        number(s) == s.fold_left(0int, |n: int, c: char| n * 10 + (c as int - 48)),
    decreases s.len(),
{
    reveal(Seq::fold_left);
    if s.len() > 0 {
        assert forall|i: int| 0 <= i < s.drop_last().len() implies digit(s.drop_last()[i]) by {
            assert(s.drop_last()[i] == s[i]);
        }
        digits_count_tens(s.drop_last());
        assert(digit(s[s.len() - 1]));
    }
}

/// A text reads as a number exactly if it is the number's digits, perhaps with
/// zeros or a plus before them, and the number fits.
pub proof fn numbers_are_read(n: nat)
    ensures
        n <= u64::MAX ==> u64_of(decimal(n)) == Some(n as u64),
        n <= u64::MAX ==> u64_of(seq!['+'] + decimal(n)) == Some(n as u64),
        n > u64::MAX ==> u64_of(decimal(n)) is None,
        u64_of(Seq::empty()) is None,
{
    decimal_reads_back(n);
    let d = decimal(n);
    assert(digit(d[0]));
    assert((seq!['+'] + d).drop_first() =~= d);
}

/// A text that holds anything but digits is no number.
pub proof fn only_digits_are_numbers(s: Seq<char>, i: int)
    requires
        0 <= i < s.len(),
        !(48 <= s[i] as int <= 57),
        i > 0 || s[i] != '+',
    ensures
        u64_of(s) is None,
{
    if s[0] == '+' {
        assert(s.drop_first()[i - 1] == s[i]);
        assert(!digit(s.drop_first()[i - 1]));
    } else {
        assert(!digit(s[i]));
    }
}

/// A text is filled up on the left, as far as it is too short.
pub proof fn padding_stands_on_the_left(s: Seq<char>, width: nat, fill: char)
    ensures
        s.len() >= width ==> padded(s, width, fill) == s,
        s.len() < width ==> padded(s, width, fill) == Seq::new(
            (width - s.len()) as nat,
            |i: int| fill,
        ) + s,
    decreases width - s.len(),
{
    if s.len() < width {
        let t = seq![fill] + s;
        padding_stands_on_the_left(t, width, fill);
        assert(padded(s, width, fill) =~= Seq::new((width - s.len()) as nat, |i: int| fill) + s);
    }
}

/// Joined texts stand one after the other, with the separator before each but
/// the first.
pub proof fn joining_puts_separators_between(parts: Seq<Seq<char>>, sep: Seq<char>)
    ensures
        parts.len() == 0 ==> joined(parts, sep).len() == 0,
        sep + joined(parts, sep) == parts.map_values(|p: Seq<char>| sep + p).flatten()
            || parts.len() == 0,
    decreases parts.len(),
{
    let f = |p: Seq<char>| sep + p;
    let all = parts.map_values(f);
    if parts.len() == 1 {
        assert(all =~= seq![sep + parts[0]]);
        all.lemma_flatten_singleton();
    } else if parts.len() > 1 {
        let d = parts.drop_last();
        joining_puts_separators_between(d, sep);
        assert(all =~= d.map_values(f).push(sep + parts.last()));
        d.map_values(f).lemma_flatten_push(sep + parts.last());
        assert(sep + joined(parts, sep) =~= (sep + joined(d, sep)) + (sep + parts.last()));
    }
}

/// A text is cut at each separator, and a text without one is a piece.
pub proof fn splitting_cuts_at_separators(s: Seq<char>, c: char, t: Seq<char>, k: CharClass)
    requires
        k.has(c),
    ensures
        split_on(s.push(c) + t, k) == split_on(s, k) + split_on(t, k),
        none_in(s, k) ==> split_on(s, k) == seq![s],
        words_of(s.push(c) + t, k) == words_of(s, k) + words_of(t, k),
        none_in(s, k) && s.len() > 0 ==> words_of(s, k) == seq![s],
        s.len() == 0 ==> words_of(s, k).len() == 0,
    decreases t.len(),
{
    lemma_split_around(s, c, t, k);
    if none_in(s, k) {
        lemma_unsplit(s, k);
    }
    let keep = |p: Seq<char>| p.len() > 0;
    lemma_filter_around(split_on(s, k), split_on(t, k), keep);
    reveal(Seq::filter);
    assert(seq![s].drop_last() =~= Seq::<Seq<char>>::empty());
    if s.len() == 0 {
        lemma_unsplit(s, k);
        assert(!keep(seq![s].last()));
        assert(Seq::<Seq<char>>::empty().filter(keep).len() == 0);
        assert(seq![s].filter(keep) == seq![s].drop_last().filter(keep));
    }
    if none_in(s, k) && s.len() > 0 {
        assert(seq![s].filter(keep) =~= seq![s]);
    }
}

proof fn lemma_pieces(s: Seq<char>, k: CharClass)
    ensures
        split_on(s, k).len() > 0,
    decreases s.len(),
{
    if s.len() > 0 {
        lemma_pieces(s.drop_last(), k);
    }
}

proof fn lemma_split_around(s: Seq<char>, c: char, t: Seq<char>, k: CharClass)
    requires
        k.has(c),
    ensures
        split_on(s.push(c) + t, k) == split_on(s, k) + split_on(t, k),
    decreases t.len(),
{
    if t.len() == 0 {
        assert(s.push(c) + t =~= s.push(c));
        assert(s.push(c).drop_last() =~= s);
        assert(split_on(s.push(c), k) =~= split_on(s, k) + split_on(t, k));
    } else {
        let u = t.drop_last();
        lemma_split_around(s, c, u, k);
        lemma_pieces(u, k);
        let whole = s.push(c) + t;
        assert(whole.drop_last() =~= s.push(c) + u);
        assert(whole.last() == t.last());
        let a = split_on(s, k);
        let b = split_on(u, k);
        if k.has(t.last()) {
            assert((a + b).push(Seq::empty()) =~= a + b.push(Seq::empty()));
        } else {
            assert((a + b).last() == b.last());
            assert((a + b).drop_last().push(b.last().push(t.last())) =~= a + b.drop_last().push(
                b.last().push(t.last()),
            ));
        }
    }
}

proof fn lemma_unsplit(s: Seq<char>, k: CharClass)
    requires
        none_in(s, k),
    ensures
        split_on(s, k) == seq![s],
    decreases s.len(),
{
    if s.len() > 0 {
        let q = s.drop_last();
        assert forall|i: int| 0 <= i < q.len() implies !k.has(#[trigger] q[i]) by {
            assert(q[i] == s[i]);
        }
        lemma_unsplit(q, k);
        assert(!k.has(s[s.len() - 1]));
        assert(seq![q].drop_last() =~= Seq::<Seq<char>>::empty());
        assert(q.push(s.last()) =~= s);
    } else {
        assert(s =~= Seq::<char>::empty());
    }
}

proof fn lemma_filter_around(
    a: Seq<Seq<char>>,
    b: Seq<Seq<char>>,
    keep: spec_fn(Seq<char>) -> bool,
)
    ensures
        (a + b).filter(keep) == a.filter(keep) + b.filter(keep),
    decreases b.len(),
{
    reveal(Seq::filter);
    if b.len() == 0 {
        assert(a + b =~= a);
        assert(a.filter(keep) + b.filter(keep) =~= a.filter(keep));
    } else {
        lemma_filter_around(a, b.drop_last(), keep);
        assert((a + b).drop_last() =~= a + b.drop_last());
        let x = a.filter(keep);
        let y = b.drop_last().filter(keep);
        assert((x + y).push(b.last()) =~= x + y.push(b.last()));
    }
}

/// A line ends at a line feed, or at a carriage return and a line feed; what
/// follows the last of them is a line too, unless it is empty.
pub proof fn lines_end_at_line_feeds(l: Seq<char>, rest: Seq<char>)
    requires
        !l.contains('\n'),
    ensures
        lines_of(l + seq!['\r', '\n'] + rest) == seq![l] + lines_of(rest),
        l.len() == 0 || l.last() != '\r' ==> lines_of(l + seq!['\n'] + rest) == seq![l] + lines_of(
            rest,
        ),
        l.len() > 0 ==> lines_of(l) == seq![l],
        l.len() == 0 ==> lines_of(l).len() == 0,
{
    let k = CharClass::Exactly('\n');
    let r = l.push('\r');
    assert(!r.contains('\n')) by {
        if r.contains('\n') {
            let i = choose|i: int| 0 <= i < r.len() && r[i] == '\n';
            assert(l[i] == '\n');
        }
    }
    unsplit_text(l, '\n');
    unsplit_text(r, '\n');
    let none = Seq::<char>::empty();
    unsplit_text(none, '\n');
    let cut = |x: Seq<char>| without_cr(x);
    assert(l + seq!['\r', '\n'] + rest =~= (r.push('\n')) + rest);
    assert(l + seq!['\n'] + rest =~= (l.push('\n')) + rest);
    lines_follow_lines(r.push('\n'), rest);
    lines_follow_lines(l.push('\n'), rest);
    split_at_separator(r, none, '\n');
    split_at_separator(l, none, '\n');
    assert(r.push('\n') + none =~= r.push('\n'));
    assert(l.push('\n') + none =~= l.push('\n'));
    let pr = split_on(r.push('\n'), k);
    let pl = split_on(l.push('\n'), k);
    assert(pr.drop_last() =~= seq![r]);
    assert(pl.drop_last() =~= seq![l]);
    assert(without_cr(r) =~= l);
    assert(seq![r].map_values(cut) =~= seq![l]);
    if l.len() == 0 || l.last() != '\r' {
        assert(seq![l].map_values(cut) =~= seq![l]);
    }
    let one = seq![l];
    assert(one.drop_last() =~= Seq::<Seq<char>>::empty());
    assert(one.drop_last().map_values(cut) =~= Seq::<Seq<char>>::empty());
    assert(one.drop_last().map_values(cut).push(l) =~= one);
}

/// A text is found in another exactly if it stands between two parts of it.
pub proof fn found_texts_stand_between(s: Seq<char>, pat: Seq<char>)
    ensures
        has_text(s, pat) <==> exists|a: Seq<char>, b: Seq<char>| s == #[trigger] (a + pat + b),
{
    if has_text(s, pat) {
        let i = choose|i: int| occurs_at(s, pat, i);
        let (a, b) = (s.take(i), s.skip(i + pat.len()));
        assert(s =~= a + pat + b);
    }
    if exists|a: Seq<char>, b: Seq<char>| s == #[trigger] (a + pat + b) {
        let (a, b) = choose|a: Seq<char>, b: Seq<char>| s == #[trigger] (a + pat + b);
        assert(s.subrange(a.len() as int, a.len() as int + pat.len()) =~= pat);
        assert(occurs_at(s, pat, a.len() as int));
    }
}

/// A suffix is taken off as often as it stands at the end, and no more.
pub proof fn suffixes_are_taken_off(s: Seq<char>, suffix: Seq<char>)
    requires
        suffix.len() > 0,
    ensures
        without_suffixes(s + suffix, suffix) == without_suffixes(s, suffix),
        !suffix.is_suffix_of(s) ==> without_suffixes(s, suffix) == s,
        !suffix.is_suffix_of(without_suffixes(s, suffix)),
        without_suffixes(s, suffix).is_prefix_of(s),
    decreases s.len(),
{
    let t = s + suffix;
    assert(t.subrange(t.len() - suffix.len(), t.len() as int) =~= suffix);
    assert(t.take(t.len() - suffix.len()) =~= s);
    if suffix.is_suffix_of(s) {
        let r = s.take(s.len() - suffix.len());
        suffixes_are_taken_off(r, suffix);
        let w = without_suffixes(r, suffix);
        assert(w == r.subrange(0, w.len() as int));
        assert(w =~= s.subrange(0, w.len() as int));
    } else {
        assert(s =~= s.subrange(0, s.len() as int));
    }
}

/// Texts that were joined with a character that none of them holds are split
/// again into the same texts.
pub proof fn joined_texts_are_split_again(parts: Seq<Seq<char>>, c: char)
    requires
        parts.len() > 0,
        forall|i: int| 0 <= i < parts.len() ==> !(#[trigger] parts[i]).contains(c),
    ensures
        split_on(joined(parts, seq![c]), CharClass::Exactly(c)) == parts,
    decreases parts.len(),
{
    let last = parts[parts.len() - 1];
    unsplit_text(last, c);
    if parts.len() == 1 {
        assert(parts =~= seq![last]);
    } else {
        let rest = parts.drop_last();
        assert forall|i: int| 0 <= i < rest.len() implies !(#[trigger] rest[i]).contains(c) by {
            assert(rest[i] == parts[i]);
        }
        joined_texts_are_split_again(rest, c);
        let head = joined(rest, seq![c]);
        assert(head + seq![c] + last =~= head.push(c) + last);
        split_at_separator(head, last, c);
        assert(rest + seq![last] =~= parts);
    }
}

} // verus!
