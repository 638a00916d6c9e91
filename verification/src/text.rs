//! Text as sequences of characters: searching, splitting, trimming, and decimal numbers.
use vstd::prelude::*;
use vstd::string::StringExecFns;
use crate::wire::has_infix;

verus! {

/// `String::push` appends one character.
pub assume_specification[ String::push ](s: &mut String, ch: char)
    ensures
        final(s)@ == old(s)@.push(ch),
;

/// The texts that a list of strings holds.
pub open spec fn texts(list: Seq<String>) -> Seq<Seq<char>> {
    list.map_values(|s: String| s@)
}

/// The texts of a list with one more string.
pub proof fn texts_push(list: Seq<String>, s: String)
    ensures
        texts(list.push(s)) == texts(list).push(s@),
{
    assert(texts(list.push(s)) =~= texts(list).push(s@));
}

/// The characters of `s`.
pub fn to_chars(s: &str) -> (r: Vec<char>)
    ensures
        r@ == s@,
{
    let mut r: Vec<char> = Vec::new();
    for c in it: s.chars()
        invariant
            r@ == it.seq().take(it.index() as int),
            it.seq() == s@,
    {
        r.push(c);
    }
    r
}

/// The text of the characters from `a` up to `b`.
pub fn from_chars(v: &[char], a: usize, b: usize) -> (r: String)
    requires
        a <= b <= v@.len(),
    ensures
        r@ == v@.subrange(a as int, b as int),
{
    let mut r = String::new();
    let mut i = a;
    while i < b
        invariant
            a <= i <= b <= v@.len(),
            r@ == v@.subrange(a as int, i as int),
        decreases b - i,
    {
        r.push(v[i]);
        i = i + 1;
        assert(v@.subrange(a as int, i as int) =~= v@.subrange(a as int, i - 1).push(v@[i - 1]));
    }
    r
}

/// Whether two texts are equal.
pub fn same_text(a: &str, b: &str) -> (r: bool)
    ensures
        r == (a@ == b@),
{
    a.to_owned() == b.to_owned()
}

/// Whether `list` holds the text `s`.
pub fn list_has(list: &Vec<String>, s: &str) -> (r: bool)
    ensures
        r == texts(list@).contains(s@),
{
    let mut i: usize = 0;
    while i < list.len()
        invariant
            i <= list@.len(),
            forall|k: int| 0 <= k < i ==> texts(list@)[k] != s@,
        decreases list@.len() - i,
    {
        if same_text(list[i].as_str(), s) {
            assert(texts(list@)[i as int] == s@);
            return true;
        }
        i = i + 1;
    }
    false
}

/// Copies a list of strings.
pub fn copy_list(list: &Vec<String>) -> (r: Vec<String>)
    ensures
        texts(r@) == texts(list@),
{
    let mut r: Vec<String> = Vec::new();
    let mut i: usize = 0;
    while i < list.len()
        invariant
            i <= list@.len(),
            texts(r@) == texts(list@).take(i as int),
        decreases list@.len() - i,
    {
        let ghost before = r@;
        let copy = list[i].clone();
        r.push(copy);
        i = i + 1;
        proof {
            texts_push(before, copy);
        }
        assert(texts(list@)[i - 1] == list@[i - 1]@);
        assert(texts(r@) =~= texts(list@).take(i as int));
    }
    assert(texts(list@).take(i as int) =~= texts(list@));
    r
}

/// `s` starts with `prefix`.
pub open spec fn has_prefix(s: Seq<char>, prefix: Seq<char>) -> bool {
    s.len() >= prefix.len() && s.take(prefix.len() as int) == prefix
}

/// Whether the characters of `needle` stand in `hay` from `at` on.
fn stands_at(hay: &[char], needle: &[char], at: usize) -> (r: bool)
    requires
        at + needle@.len() <= hay@.len(),
    ensures
        r == (hay@.subrange(at as int, at + needle@.len()) == needle@),
{
    let m = needle.len();
    let n = hay.len();
    let mut j: usize = 0;
    while j < m
        invariant
            n == hay@.len(),
            m == needle@.len(),
            at + m <= n,
            j <= m,
            forall|k: int| 0 <= k < j ==> hay@[at + k] == needle@[k],
        decreases m - j,
    {
        if hay[at + j] != needle[j] {
            assert(hay@.subrange(at as int, at + m)[j as int] != needle@[j as int]);
            return false;
        }
        j = j + 1;
    }
    assert(hay@.subrange(at as int, at + m) =~= needle@);
    true
}

/// `needle` stands in `hay` at `at` and nowhere before.
pub open spec fn first_infix_at<T>(hay: Seq<T>, needle: Seq<T>, at: int) -> bool {
    &&& 0 <= at
    &&& at + needle.len() <= hay.len()
    &&& hay.subrange(at, at + needle.len()) == needle
    &&& forall|i: int| 0 <= i < at ==> #[trigger] hay.subrange(i, i + needle.len()) != needle
}

/// The first place where `needle` stands in `hay`.
pub fn find_chars(hay: &[char], needle: &[char]) -> (r: Option<usize>)
    ensures
        match r {
            Some(at) => first_infix_at(hay@, needle@, at as int),
            None => !has_infix(hay@, needle@),
        },
        r is Some ==> has_infix(hay@, needle@),
{
    let n = hay.len();
    let m = needle.len();
    if m > n {
        return None;
    }
    let mut i: usize = 0;
    while i <= n - m
        invariant
            n == hay@.len(),
            m == needle@.len() <= n,
            i <= n - m + 1,
            forall|k: int| 0 <= k < i ==> #[trigger] hay@.subrange(k, k + needle@.len()) != needle@,
        decreases n - m + 1 - i,
    {
        if stands_at(hay, needle, i) {
            return Some(i);
        }
        if i == n - m {
            return None;
        }
        i = i + 1;
    }
    None
}

/// Whether `needle` stands somewhere in `hay`.
pub fn contains_text(hay: &str, needle: &str) -> (r: bool)
    ensures
        r == has_infix(hay@, needle@),
{
    let h = to_chars(hay);
    let n = to_chars(needle);
    match find_chars(h.as_slice(), n.as_slice()) {
        Some(_) => true,
        None => false,
    }
}

/// Whether `s` starts with `prefix`.
pub fn starts_with_text(s: &str, prefix: &str) -> (r: bool)
    ensures
        r == has_prefix(s@, prefix@),
{
    let h = to_chars(s);
    let p = to_chars(prefix);
    if p.len() > h.len() {
        return false;
    }
    assert(h@.subrange(0, p@.len() as int) =~= h@.take(p@.len() as int));
    stands_at(h.as_slice(), p.as_slice(), 0)
}

/// The digit character of `d`.
pub open spec fn digit_char(d: nat) -> char {
    (0x30 + d) as char
}

/// The number of a digit character.
pub open spec fn digit_of(c: char) -> int {
    c as int - 0x30
}

/// `c` is one of the characters `0` to `9`.
pub open spec fn is_digit(c: char) -> bool {
    0x30 <= c as int <= 0x39
}

/// The decimal digits of `n`, without leading zeros.
pub open spec fn decimal(n: nat) -> Seq<char>
    decreases n,
{
    if n < 10 {
        seq![digit_char(n)]
    } else {
        decimal(n / 10).push(digit_char(n % 10))
    }
}

/// The number that a row of digits spells.
pub open spec fn digits_value(s: Seq<char>) -> int
    decreases s.len(),
{
    if s.len() == 0 {
        0
    } else {
        digits_value(s.drop_last()) * 10 + digit_of(s.last())
    }
}

/// All characters of `s` are digits.
pub open spec fn all_digits(s: Seq<char>) -> bool {
    forall|i: int| 0 <= i < s.len() ==> is_digit(#[trigger] s[i])
}

/// The number that `s` spells as an unsigned number of at most `max`: digits, of which there is
/// at least one, behind an optional plus sign.
pub open spec fn number(s: Seq<char>, max: nat) -> Option<nat> {
    let body = if s.len() > 0 && s[0] == '+' {
        s.skip(1)
    } else {
        s
    };
    if body.len() > 0 && all_digits(body) && digits_value(body) <= max {
        Some(digits_value(body) as nat)
    } else {
        None
    }
}

/// `r` is `n` as a machine number, or there is neither.
pub open spec fn is_number(r: Option<u64>, n: Option<nat>) -> bool {
    match (r, n) {
        (Some(x), Some(y)) => x == y,
        (None, None) => true,
        _ => false,
    }
}

fn code_point(c: char) -> (r: u32)
    ensures
        r == c as int,
{
    c as u32
}

fn digit_to_char(d: u64) -> (r: char)
    requires
        d < 10,
    ensures
        r == digit_char(d as nat),
{
    let b: u8 = 0x30 + d as u8;
    b as char
}

/// Appends the decimal digits of `n`.
pub fn push_decimal(out: &mut String, n: u64)
    ensures
        final(out)@ == old(out)@ + decimal(n as nat),
    decreases n,
{
    if n >= 10 {
        push_decimal(out, n / 10);
    }
    out.push(digit_to_char(n % 10));
    assert(out@ =~= old(out)@ + decimal(n as nat));
}

/// The decimal digits of `n`.
pub fn decimal_text(n: u64) -> (r: String)
    ensures
        r@ == decimal(n as nat),
{
    let mut r = String::new();
    push_decimal(&mut r, n);
    assert(r@ =~= decimal(n as nat));
    r
}

/// A digit in front of others only adds to the number.
proof fn digits_value_grows(s: Seq<char>, k: int)
    requires
        all_digits(s),
        0 <= k <= s.len(),
    ensures
        0 <= digits_value(s.take(k)) <= digits_value(s),
    decreases s.len() - k,
{
    if k < s.len() {
        digits_value_grows(s, k + 1);
        assert(s.take(k + 1).drop_last() =~= s.take(k));
        digits_value_nonneg(s.take(k));
    } else {
        assert(s.take(k) =~= s);
        digits_value_nonneg(s);
    }
}

proof fn digits_value_nonneg(s: Seq<char>)
    requires
        all_digits(s),
    ensures
        0 <= digits_value(s),
    decreases s.len(),
{
    if s.len() > 0 {
        assert(all_digits(s.drop_last()));
        assert(is_digit(s[s.len() - 1]));
        digits_value_nonneg(s.drop_last());
    }
}

/// Reads the characters from `a` up to `b` as an unsigned number of at most `max`.
pub fn parse_number(v: &[char], a: usize, b: usize, max: u64) -> (r: Option<u64>)
    requires
        a <= b <= v@.len(),
    ensures
        is_number(r, number(v@.subrange(a as int, b as int), max as nat)),
        r matches Some(n) ==> n <= max,
{
    let ghost s = v@.subrange(a as int, b as int);
    let start: usize = if a < b && v[a] == '+' {
        a + 1
    } else {
        a
    };
    let ghost body = v@.subrange(start as int, b as int);
    assert(body =~= if s.len() > 0 && s[0] == '+' {
        s.skip(1)
    } else {
        s
    });
    if start == b {
        return None;
    }
    let mut i: usize = start;
    let mut value: u64 = 0;
    assert(body.take(0) =~= Seq::<char>::empty());
    while i < b
        invariant
            a <= start <= i <= b <= v@.len(),
            start < b,
            s == v@.subrange(a as int, b as int),
            body == v@.subrange(start as int, b as int),
            body == if s.len() > 0 && s[0] == '+' {
                s.skip(1)
            } else {
                s
            },
            value <= max,
            value == digits_value(body.take(i - start)),
            all_digits(body.take(i - start)),
        decreases b - i,
    {
        let c = v[i];
        let ghost k = i - start;
        assert(body[k] == c);
        let code: u32 = code_point(c);
        if code < 0x30 || code > 0x39 {
            assert(!is_digit(body[k]));
            return None;
        }
        let d: u64 = code as u64 - 0x30;
        assert(body.take(k + 1).drop_last() =~= body.take(k));
        assert(body.take(k + 1).last() == c);
        assert(digits_value(body.take(k + 1)) == value * 10 + d);
        assert(all_digits(body.take(k + 1)));
        if value > (u64::MAX - d) / 10 || value * 10 + d > max {
            proof {
                if all_digits(body) {
                    digits_value_grows(body, k + 1);
                }
            }
            return None;
        }
        value = value * 10 + d;
        i = i + 1;
    }
    assert(body.take(i - start) =~= body);
    Some(value)
}

/// Reads `s` as an unsigned number of at most `max`.
pub fn parse_text(s: &str, max: u64) -> (r: Option<u64>)
    ensures
        is_number(r, number(s@, max as nat)),
        r matches Some(n) ==> n <= max,
{
    let v = to_chars(s);
    assert(v@.subrange(0, v@.len() as int) =~= s@);
    parse_number(v.as_slice(), 0, v.len(), max)
}

proof fn decimal_is_digits(n: nat)
    ensures
        decimal(n).len() > 0,
        all_digits(decimal(n)),
        digits_value(decimal(n)) == n,
    decreases n,
{
    if n >= 10 {
        decimal_is_digits(n / 10);
        assert(decimal(n).drop_last() =~= decimal(n / 10));
    } else {
        assert(decimal(n).drop_last() =~= Seq::<char>::empty());
        assert(digits_value(decimal(n).drop_last()) == 0);
    }
}

/// A number that was written out in decimal is read back.
pub proof fn decimal_reads_back(n: nat, max: nat)
    requires
        n <= max,
    ensures
        number(decimal(n), max) == Some(n),
{
    decimal_is_digits(n);
    assert(is_digit(decimal(n)[0]));
}

/// The place of the first `c` in `s`; its length where there is none.
pub open spec fn first_at(s: Seq<char>, c: char) -> int
    decreases s.len(),
{
    if s.len() == 0 || s[0] == c {
        0
    } else {
        1 + first_at(s.skip(1), c)
    }
}

/// What `first_at` finds.
pub proof fn first_at_is_first(s: Seq<char>, c: char)
    ensures
        0 <= first_at(s, c) <= s.len(),
        first_at(s, c) < s.len() ==> s[first_at(s, c)] == c,
        forall|i: int| 0 <= i < first_at(s, c) ==> s[i] != c,
    decreases s.len(),
{
    if s.len() > 0 && s[0] != c {
        first_at_is_first(s.skip(1), c);
        assert forall|i: int| 0 <= i < first_at(s, c) implies s[i] != c by {
            if i > 0 {
                assert(s[i] == s.skip(1)[i - 1]);
            }
        }
    }
}

/// Only the first place is the one that `first_at` gives.
pub proof fn first_at_unique(s: Seq<char>, c: char, k: int)
    requires
        0 <= k <= s.len(),
        k < s.len() ==> s[k] == c,
        forall|i: int| 0 <= i < k ==> s[i] != c,
    ensures
        first_at(s, c) == k,
{
    first_at_is_first(s, c);
}

/// The pieces of `s` between the separators `c`.
pub open spec fn split_on(s: Seq<char>, c: char) -> Seq<Seq<char>>
    decreases s.len(),
{
    let i = first_at(s, c);
    if 0 <= i < s.len() {
        seq![s.take(i)] + split_on(s.skip(i + 1), c)
    } else {
        seq![s]
    }
}

/// The place of the first `c` from `a` on; the number of characters where there is none.
pub fn find_char(v: &[char], a: usize, c: char) -> (r: usize)
    requires
        a <= v@.len(),
    ensures
        a <= r <= v@.len(),
        r == a + first_at(v@.skip(a as int), c),
{
    let n = v.len();
    let mut i: usize = a;
    while i < n && v[i] != c
        invariant
            a <= i <= n == v@.len(),
            forall|k: int| a <= k < i ==> v@[k] != c,
        decreases n - i,
    {
        i = i + 1;
    }
    proof {
        first_at_unique(v@.skip(a as int), c, i - a);
    }
    i
}

/// White space, as Unicode defines it.
pub open spec fn is_white(c: char) -> bool {
    let u = c as int;
    ||| 0x9 <= u <= 0xd
    ||| u == 0x20
    ||| u == 0x85
    ||| u == 0xa0
    ||| u == 0x1680
    ||| 0x2000 <= u <= 0x200a
    ||| u == 0x2028
    ||| u == 0x2029
    ||| u == 0x202f
    ||| u == 0x205f
    ||| u == 0x3000
}

/// Whether `c` is white space.
pub fn white(c: char) -> (r: bool)
    ensures
        r == is_white(c),
{
    let u: u32 = c as u32;
    (0x9 <= u && u <= 0xd) || u == 0x20 || u == 0x85 || u == 0xa0 || u == 0x1680 || (0x2000 <= u
        && u <= 0x200a) || u == 0x2028 || u == 0x2029 || u == 0x202f || u == 0x205f || u == 0x3000
}

/// `s` without the white space it starts with.
pub open spec fn trim_front(s: Seq<char>) -> Seq<char>
    decreases s.len(),
{
    if s.len() > 0 && is_white(s[0]) {
        trim_front(s.skip(1))
    } else {
        s
    }
}

/// `s` without the white space it ends with.
pub open spec fn trim_back(s: Seq<char>) -> Seq<char>
    decreases s.len(),
{
    if s.len() > 0 && is_white(s.last()) {
        trim_back(s.drop_last())
    } else {
        s
    }
}

/// `s` without the white space around it.
pub open spec fn trimmed(s: Seq<char>) -> Seq<char> {
    trim_back(trim_front(s))
}

/// Where the characters from `a` up to `b` start once the white space in front is left out.
pub fn skip_white(v: &[char], a: usize, b: usize) -> (r: usize)
    requires
        a <= b <= v@.len(),
    ensures
        a <= r <= b,
        v@.subrange(r as int, b as int) == trim_front(v@.subrange(a as int, b as int)),
{
    let mut i: usize = a;
    while i < b && white(v[i])
        invariant
            a <= i <= b <= v@.len(),
            trim_front(v@.subrange(i as int, b as int)) == trim_front(
                v@.subrange(a as int, b as int),
            ),
        decreases b - i,
    {
        assert(v@.subrange(i as int, b as int).skip(1) =~= v@.subrange(i + 1, b as int));
        i = i + 1;
    }
    i
}

/// Where the characters from `a` up to `b` end once the white space behind is left out.
fn drop_white(v: &[char], a: usize, b: usize) -> (r: usize)
    requires
        a <= b <= v@.len(),
    ensures
        a <= r <= b,
        v@.subrange(a as int, r as int) == trim_back(v@.subrange(a as int, b as int)),
{
    let mut i: usize = b;
    while a < i && white(v[i - 1])
        invariant
            a <= i <= b <= v@.len(),
            trim_back(v@.subrange(a as int, i as int)) == trim_back(
                v@.subrange(a as int, b as int),
            ),
        decreases i,
    {
        assert(v@.subrange(a as int, i as int).drop_last() =~= v@.subrange(a as int, i - 1));
        i = i - 1;
    }
    i
}

/// The text of the characters from `a` up to `b` without the white space around it.
pub fn trim_chars(v: &[char], a: usize, b: usize) -> (r: String)
    requires
        a <= b <= v@.len(),
    ensures
        r@ == trimmed(v@.subrange(a as int, b as int)),
{
    let s = skip_white(v, a, b);
    let e = drop_white(v, s, b);
    from_chars(v, s, e)
}

/// A line without the carriage return it may end with.
pub open spec fn without_cr(s: Seq<char>) -> Seq<char> {
    if s.len() > 0 && s.last() == '\r' {
        s.drop_last()
    } else {
        s
    }
}

/// The lines of `s`. A line feed, or a carriage return and a line feed, ends a line; what is left
/// after the last line feed is a line where it is not empty.
pub open spec fn lines_of(s: Seq<char>) -> Seq<Seq<char>>
    decreases s.len(),
{
    let i = first_at(s, '\n');
    if s.len() == 0 {
        Seq::empty()
    } else if 0 <= i < s.len() {
        seq![without_cr(s.take(i))] + lines_of(s.skip(i + 1))
    } else {
        seq![s]
    }
}

/// The lines of `s`.
pub fn lines(s: &str) -> (r: Vec<String>)
    ensures
        texts(r@) == lines_of(s@),
{
    let v = to_chars(s);
    let n = v.len();
    let mut r: Vec<String> = Vec::new();
    let mut a: usize = 0;
    assert(v@.skip(0) =~= s@);
    assert(texts(r@) + lines_of(v@.skip(0)) =~= lines_of(s@));
    while a < n
        invariant
            n == v@.len(),
            a <= n,
            v@ == s@,
            texts(r@) + lines_of(v@.skip(a as int)) == lines_of(s@),
        decreases n - a,
    {
        let i = find_char(v.as_slice(), a, '\n');
        let ghost rest = v@.skip(a as int);
        let ghost before = texts(r@);
        if i == n {
            r.push(from_chars(v.as_slice(), a, n));
            assert(v@.subrange(a as int, n as int) =~= rest);
            assert(texts(r@) =~= before.push(rest));
            assert(texts(r@) =~= before + lines_of(rest));
            return r;
        }
        let e: usize = if a < i && v[i - 1] == '\r' {
            i - 1
        } else {
            i
        };
        assert(rest.take(i - a) =~= v@.subrange(a as int, i as int));
        assert(v@.subrange(a as int, e as int) =~= without_cr(rest.take(i - a)));
        r.push(from_chars(v.as_slice(), a, e));
        assert(rest.skip(i - a + 1) =~= v@.skip(i + 1));
        assert(texts(r@) =~= before.push(without_cr(rest.take(i - a))));
        assert(texts(r@) + lines_of(v@.skip(i + 1)) =~= before + lines_of(rest));
        a = i + 1;
    }
    assert(v@.skip(a as int) =~= Seq::<char>::empty());
    assert(texts(r@) =~= lines_of(s@));
    r
}

/// What stands before the last colon of `s`; the whole of it where there is none.
pub open spec fn before_last_colon(s: Seq<char>) -> Seq<char>
    decreases s.len(),
{
    if !s.contains(':') {
        s
    } else if s.last() == ':' {
        s.drop_last()
    } else {
        before_last_colon(s.drop_last())
    }
}

/// The place of the last colon.
pub fn last_colon(v: &[char]) -> (r: Option<usize>)
    ensures
        match r {
            Some(i) => {
                &&& i < v@.len()
                &&& v@[i as int] == ':'
                &&& forall|k: int| i < k < v@.len() ==> v@[k] != ':'
            },
            None => !v@.contains(':'),
        },
{
    let mut i: usize = v.len();
    while i > 0
        invariant
            i <= v@.len(),
            forall|k: int| i <= k < v@.len() ==> v@[k] != ':',
        decreases i,
    {
        i = i - 1;
        if v[i] == ':' {
            return Some(i);
        }
    }
    None
}

/// The bytes of a text whose characters all have one.
pub open spec fn ascii(s: Seq<char>) -> Seq<u8> {
    s.map_values(|c: char| c as u8)
}

/// The bytes of a text whose characters all have one.
pub fn ascii_bytes(s: &str) -> (r: Vec<u8>)
    requires
        forall|i: int| 0 <= i < s@.len() ==> 128 > (#[trigger] s@[i]) as int,
    ensures
        r@ == ascii(s@),
{
    let v = to_chars(s);
    let mut out: Vec<u8> = Vec::new();
    let mut i: usize = 0;
    while i < v.len()
        invariant
            i <= v@.len(),
            v@ == s@,
            forall|i: int| 0 <= i < s@.len() ==> 128 > (#[trigger] s@[i]) as int,
            out@ == ascii(s@).take(i as int),
        decreases v@.len() - i,
    {
        let code: u32 = code_point(v[i]);
        assert(s@[i as int] as int == code);
        out.push(code as u8);
        i = i + 1;
        assert(out@ =~= ascii(s@).take(i as int));
    }
    assert(ascii(s@).take(i as int) =~= ascii(s@));
    out
}

/// Appends `s`.
pub fn push_text(out: &mut String, s: &str)
    ensures
        final(out)@ == old(out)@ + s@,
{
    out.append(s);
}

/// `list`, each text behind the separator but the first.
pub open spec fn joined(list: Seq<Seq<char>>, sep: Seq<char>) -> Seq<char>
    decreases list.len(),
{
    if list.len() == 0 {
        Seq::empty()
    } else if list.len() == 1 {
        list[0]
    } else {
        joined(list.drop_last(), sep) + sep + list.last()
    }
}

/// Joins the texts of `list` with `sep` between them.
pub fn join_list(list: &Vec<String>, sep: &str) -> (r: String)
    ensures
        r@ == joined(texts(list@), sep@),
{
    let mut r = String::new();
    let mut i: usize = 0;
    while i < list.len()
        invariant
            i <= list@.len(),
            r@ == joined(texts(list@).take(i as int), sep@),
        decreases list@.len() - i,
    {
        if i > 0 {
            r.append(sep);
        }
        r.append(list[i].as_str());
        i = i + 1;
        let ghost upto = texts(list@).take(i as int);
        assert(upto.drop_last() =~= texts(list@).take(i - 1));
        assert(upto.last() == list@[i - 1]@);
        assert(r@ =~= joined(upto, sep@));
    }
    assert(texts(list@).take(i as int) =~= texts(list@));
    r
}

/// A list of texts is read in order.
pub proof fn texts_are_the_views(list: Seq<String>, i: int)
    requires
        0 <= i < list.len(),
    ensures
        texts(list).len() == list.len(),
        texts(list)[i] == list[i]@,
{
}

/// A text starts with what it goes on from.
pub proof fn prefix_is_what_comes_first(s: Seq<char>, prefix: Seq<char>, rest: Seq<char>)
    ensures
        has_prefix(prefix + rest, prefix),
        has_prefix(s, prefix) ==> s == prefix + s.skip(prefix.len() as int),
{
    assert((prefix + rest).take(prefix.len() as int) =~= prefix);
    if has_prefix(s, prefix) {
        assert(s =~= s.take(prefix.len() as int) + s.skip(prefix.len() as int));
    }
}

/// A number is written with the digits `0` to `9`, and a digit behind it makes it ten times as
/// large and adds the digit.
pub proof fn decimal_counts_by_tens(n: nat, d: nat, c: char)
    requires
        d <= 9,
        c as int == '0' as int + d,
    ensures
        decimal(d) == seq![c],
        n > 0 ==> decimal(10 * n + d) == decimal(n).push(c),
{
    assert((10 * n + d) / 10 == n && (10 * n + d) % 10 == d);
    assert(digit_char(d) == c);
}

/// Zeros before a row of digits change nothing of the number, nor does a plus sign before them.
pub proof fn zeros_and_a_plus_change_nothing(n: nat, zeros: nat, max: nat)
    ensures
        ({
            let digits = Seq::new(zeros, |i: int| '0') + decimal(n);
            let want = if n <= max {
                Some(n)
            } else {
                None
            };
            number(digits, max) == want && number(seq!['+'] + digits, max) == want
        }),
{
    let digits = Seq::new(zeros, |i: int| '0') + decimal(n);
    decimal_is_digits(n);
    zeros_before(zeros, decimal(n));
    assert(digits[0] != '+') by {
        if zeros == 0 {
            assert(is_digit(decimal(n)[0]));
        }
    }
    assert((seq!['+'] + digits).skip(1) =~= digits);
}

proof fn zeros_before(zeros: nat, s: Seq<char>)
    requires
        all_digits(s),
    ensures
        all_digits(Seq::new(zeros, |i: int| '0') + s),
        digits_value(Seq::new(zeros, |i: int| '0') + s) == digits_value(s),
    decreases s.len(), zeros,
{
    let front = Seq::new(zeros, |i: int| '0');
    let all = front + s;
    assert forall|i: int| 0 <= i < all.len() implies is_digit(#[trigger] all[i]) by {
        if i >= zeros {
            assert(is_digit(s[i - zeros]));
        }
    }
    if s.len() > 0 {
        assert(all_digits(s.drop_last())) by {
            assert forall|i: int| 0 <= i < s.len() - 1 implies is_digit(
                #[trigger] s.drop_last()[i],
            ) by {
                assert(is_digit(s[i]));
            }
        }
        zeros_before(zeros, s.drop_last());
        assert(all.drop_last() =~= front + s.drop_last());
    } else if zeros > 0 {
        let fewer = Seq::new((zeros - 1) as nat, |i: int| '0');
        zeros_before((zeros - 1) as nat, s);
        assert(all.drop_last() =~= fewer + s);
    }
}

/// A text that is empty, is a sign alone or holds anything but digits behind its sign is no number.
pub proof fn other_texts_are_no_numbers(s: Seq<char>, max: nat)
    requires
        s.len() == 0 || s == seq!['+'] || (exists|i: int|
            0 <= i < s.len() && !('0' as int <= (#[trigger] s[i]) as int <= '9' as int) && (i > 0
                || s[i] != '+')),
    ensures
        number(s, max) is None,
{
    if s.len() > 0 && s != seq!['+'] {
        let i = choose|i: int|
            0 <= i < s.len() && !('0' as int <= (#[trigger] s[i]) as int <= '9' as int) && (i > 0
                || s[i] != '+');
        assert(!is_digit(s[i]));
        if s[0] == '+' {
            assert(s.skip(1)[i - 1] == s[i]);
        }
    } else if s.len() > 0 {
        assert(s.skip(1).len() == 0);
    }
}

/// The pieces of a text are joined to it again by the separator, and none of them holds one.
pub proof fn pieces_join_to_the_text(s: Seq<char>, c: char)
    ensures
        joined(split_on(s, c), seq![c]) == s,
        split_on(s, c).len() > 0,
        forall|i: int, j: int|
            0 <= i < split_on(s, c).len() && 0 <= j < split_on(s, c)[i].len() ==> (
            #[trigger] split_on(s, c)[i][j]) != c,
    decreases s.len(),
{
    let k = first_at(s, c);
    first_at_is_first(s, c);
    let pieces = split_on(s, c);
    if k < s.len() {
        let rest = s.skip(k + 1);
        let more = split_on(rest, c);
        pieces_join_to_the_text(rest, c);
        joined_from_the_front(s.take(k), more, seq![c]);
        assert(s =~= s.take(k) + seq![c] + rest);
        assert forall|i: int, j: int|
            0 <= i < pieces.len() && 0 <= j < pieces[i].len() implies (#[trigger] pieces[i][j])
            != c by {
            if i > 0 {
                assert(pieces[i] == more[i - 1]);
                assert(more[i - 1][j] != c);
            }
        }
    }
}

proof fn joined_from_the_front(first: Seq<char>, rest: Seq<Seq<char>>, sep: Seq<char>)
    requires
        rest.len() > 0,
    ensures
        joined(seq![first] + rest, sep) == first + sep + joined(rest, sep),
    decreases rest.len(),
{
    let all = seq![first] + rest;
    assert(all.drop_last() =~= seq![first] + rest.drop_last());
    assert(all.last() == rest.last());
    if rest.len() > 1 {
        joined_from_the_front(first, rest.drop_last(), sep);
        assert(first + sep + joined(rest.drop_last(), sep) + sep + rest.last() =~= first + sep + (
        joined(rest.drop_last(), sep) + sep + rest.last()));
    } else {
        assert(all.drop_last() =~= seq![first]);
        assert(joined(seq![first], sep) == first);
        assert(all.len() == 2);
    }
}

/// A list is joined with the separator between its texts and nowhere else.
pub proof fn separator_stands_between(list: Seq<Seq<char>>, x: Seq<char>, sep: Seq<char>)
    ensures
        joined(Seq::empty(), sep) == Seq::<char>::empty(),
        joined(seq![x], sep) == x,
        list.len() > 0 ==> joined(list.push(x), sep) == joined(list, sep) + sep + x,
{
    assert(list.push(x).drop_last() =~= list);
}

/// White space is the blank, the characters from tab to carriage return, and the blanks of Unicode
/// outside of ASCII.
pub proof fn white_space_is_listed(c: char)
    ensures
        is_white(c) <==> c == ' ' || ('\t' as int <= c as int <= '\r' as int) || c == '\u{85}' || c
            == '\u{a0}' || c == '\u{1680}' || ('\u{2000}' as int <= c as int <= '\u{200a}' as int)
            || c == '\u{2028}' || c == '\u{2029}' || c == '\u{202f}' || c == '\u{205f}' || c
            == '\u{3000}',
{
}

/// White space is taken off both ends of a text, and nothing else.
pub proof fn trimming_takes_white_space_only(front: Seq<char>, s: Seq<char>, back: Seq<char>)
    requires
        forall|i: int| 0 <= i < front.len() ==> is_white(#[trigger] front[i]),
        forall|i: int| 0 <= i < back.len() ==> is_white(#[trigger] back[i]),
        s.len() > 0 ==> !is_white(s[0]) && !is_white(s.last()),
    ensures
        trimmed(front + s + back) == s,
        s.len() > 0 ==> trim_front(front + s + back) == s + back,
        s.len() == 0 ==> trim_front(front + back) == s,
    decreases front.len(), back.len(),
{
    if front.len() > 0 {
        let fewer = front.skip(1);
        assert forall|i: int| 0 <= i < fewer.len() implies is_white(#[trigger] fewer[i]) by {
            assert(is_white(front[i + 1]));
        }
        trimming_takes_white_space_only(fewer, s, back);
        assert(is_white(front[0]));
        assert((front + s + back).skip(1) =~= fewer + s + back);
        assert((front + back).skip(1) =~= fewer + back);
    } else if s.len() > 0 {
        assert(front + s + back =~= s + back);
        if back.len() > 0 {
            let fewer = back.drop_last();
            assert forall|i: int| 0 <= i < fewer.len() implies is_white(#[trigger] fewer[i]) by {
                assert(is_white(back[i]));
            }
            trimming_takes_white_space_only(front, s, fewer);
            assert(front + s + fewer =~= s + fewer);
            assert(is_white(back[back.len() - 1]));
            assert((s + back).drop_last() =~= s + fewer);
        } else {
            assert(s + back =~= s);
        }
    } else {
        assert(front + s + back =~= back);
        assert(front + back =~= back);
        if back.len() > 0 {
            let fewer = back.skip(1);
            assert forall|i: int| 0 <= i < fewer.len() implies is_white(#[trigger] fewer[i]) by {
                assert(is_white(back[i + 1]));
            }
            trimming_takes_white_space_only(front, s, fewer);
            assert(front + s + fewer =~= fewer);
            assert(front + fewer =~= fewer);
            assert(is_white(back[0]));
        } else {
            assert(back =~= s);
        }
    }
}

/// A line feed ends a line and is not part of it, nor is one carriage return before it. What is
/// left behind the last line feed is a line as it stands, where anything is left.
pub proof fn line_feeds_end_lines(line: Seq<char>, rest: Seq<char>)
    requires
        forall|i: int| 0 <= i < line.len() ==> #[trigger] line[i] != '\n',
    ensures
        line.len() == 0 || line.last() != '\r' ==> lines_of(line + seq!['\n'] + rest) == seq![line]
            + lines_of(rest),
        lines_of(line + seq!['\r', '\n'] + rest) == seq![line] + lines_of(rest),
        lines_of(line) == if line.len() > 0 {
            seq![line]
        } else {
            Seq::empty()
        },
{
    let n = line.len() as int;
    let one = line + seq!['\n'] + rest;
    first_at_unique(one, '\n', n);
    assert(one.take(n) =~= line);
    assert(one.skip(n + 1) =~= rest);
    let two = line + seq!['\r', '\n'] + rest;
    first_at_unique(two, '\n', n + 1);
    assert(two.take(n + 1) =~= line.push('\r'));
    assert(line.push('\r').drop_last() =~= line);
    assert(two.skip(n + 2) =~= rest);
    first_at_unique(line, '\n', n);
}

/// The last colon and what is behind it are left out; a text without a colon stays as it is.
pub proof fn last_colon_cuts(host: Seq<char>, port: Seq<char>)
    requires
        !port.contains(':'),
    ensures
        before_last_colon(host + seq![':'] + port) == host,
        before_last_colon(port) == port,
    decreases port.len(),
{
    let s = host + seq![':'] + port;
    assert(s[host.len() as int] == ':');
    if port.len() > 0 {
        let fewer = port.drop_last();
        assert(port.contains(port.last()));
        assert(!fewer.contains(':')) by {
            if fewer.contains(':') {
                let i = choose|i: int| 0 <= i < fewer.len() && fewer[i] == ':';
                assert(port[i] == ':');
            }
        }
        last_colon_cuts(host, fewer);
        assert(s.drop_last() =~= host + seq![':'] + fewer);
        assert(s.last() == port.last());
    } else {
        assert(s.drop_last() =~= host);
    }
}

/// Each character of ASCII gives its byte.
pub proof fn each_character_gives_its_byte(s: Seq<char>, i: int)
    requires
        0 <= i < s.len(),
        0 <= s[i] as int <= 127,
    ensures
        ascii(s).len() == s.len(),
        ascii(s)[i] as int == s[i] as int,
{
}

/// A text is found at its first place, and only there.
pub proof fn first_place_is_the_first<T>(hay: Seq<T>, needle: Seq<T>, at: int)
    ensures
        first_infix_at(hay, needle, at) <==> 0 <= at <= hay.len() - needle.len() && hay
            =~= hay.take(at) + needle + hay.skip(at + needle.len()) && (forall|i: int|
            0 <= i < at ==> #[trigger] hay.subrange(i, i + needle.len()) != needle),
{
    if 0 <= at <= hay.len() - needle.len() {
        let split = hay.take(at) + needle + hay.skip(at + needle.len());
        if hay.subrange(at, at + needle.len()) == needle {
            assert(hay =~= hay.take(at) + hay.subrange(at, at + needle.len()) + hay.skip(
                at + needle.len(),
            ));
        }
        if hay == split {
            assert(split.subrange(at, at + needle.len()) =~= needle);
        }
    }
}

/// A machine number stands for a number just where both are there and are the same.
pub proof fn machine_number_is_the_number(r: Option<u64>, n: Option<nat>)
    ensures
        is_number(r, n) <==> (r is Some <==> n is Some) && (r is Some ==> r->0 == n->0),
{
}

} // verus!
