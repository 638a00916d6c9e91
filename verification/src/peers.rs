//! Peer addresses: which texts are addresses, which of them can be dialled from outside, how they
//! are found in a file, and where the list of candidates lies.
use vstd::prelude::*;
use crate::lists::{distinct, extend_new, with_new_concat};
use crate::text::{
    decimal, decimal_reads_back, find_char, find_chars, first_at, first_at_is_first,
    first_at_unique, first_infix_at, from_chars, has_prefix, is_digit, is_white, number,
    other_texts_are_no_numbers, parse_number, prefix_is_what_comes_first, push_text, skip_white,
    split_on, starts_with_text,
    texts, texts_push, to_chars, trim_chars, trim_front, trimmed, trimming_takes_white_space_only,
    zeros_and_a_plus_change_nothing,
};

verus! {

/// One part of an address: up to three characters that spell a number of at most 255.
pub open spec fn octet(s: Seq<char>) -> bool {
    s.len() <= 3 && number(s, 255) is Some
}

/// Four octets with dots between them.
pub open spec fn ipv4(s: Seq<char>) -> bool {
    let parts = split_on(s, '.');
    parts.len() == 4 && forall|i: int| 0 <= i < 4 ==> octet(#[trigger] parts[i])
}

/// Whether the characters from `a` up to `b` are an IPv4 address.
fn is_ipv4_chars(v: &[char], a: usize, b: usize) -> (r: bool)
    requires
        a <= b <= v@.len(),
    ensures
        r == ipv4(v@.subrange(a as int, b as int)),
{
    let ghost s = v@.subrange(a as int, b as int);
    let ghost all = split_on(s, '.');
    let mut parts: usize = 0;
    let mut p: usize = a;
    loop
        invariant
            s == v@.subrange(a as int, b as int),
            all == split_on(s, '.'),
            a <= p <= b <= v@.len(),
            parts <= p - a,
            all.len() == parts + split_on(v@.subrange(p as int, b as int), '.').len(),
            all.skip(parts as int) == split_on(v@.subrange(p as int, b as int), '.'),
            forall|i: int| 0 <= i < parts ==> octet(#[trigger] all[i]),
        decreases b - p,
    {
        let ghost rest = v@.subrange(p as int, b as int);
        let mut e: usize = p;
        while e < b && v[e] != '.'
            invariant
                p <= e <= b <= v@.len(),
                rest == v@.subrange(p as int, b as int),
                forall|k: int| p <= k < e ==> v@[k] != '.',
            decreases b - e,
        {
            e = e + 1;
        }
        proof {
            crate::text::first_at_unique(rest, '.', e - p);
            assert(rest.take(e - p) =~= v@.subrange(p as int, e as int));
            assert(split_on(rest, '.')[0] =~= v@.subrange(p as int, e as int));
            assert(all[parts as int] == all.skip(parts as int)[0]);
        }
        if e - p > 3 || parse_number(v, p, e, 255).is_none() {
            assert(!octet(all[parts as int]));
            return false;
        }
        if e == b {
            assert(split_on(rest, '.').len() == 1);
            return parts == 3;
        }
        assert(rest.skip(e - p + 1) =~= v@.subrange(e + 1, b as int));
        assert(split_on(rest, '.').skip(1) =~= split_on(rest.skip(e - p + 1), '.'));
        assert(all.skip(parts + 1) =~= all.skip(parts as int).skip(1));
        parts = parts + 1;
        p = e + 1;
    }
}

/// Whether `s` is an IPv4 address.
pub fn is_ipv4(s: &str) -> (r: bool)
    ensures
        r == ipv4(s@),
{
    let v = to_chars(s);
    assert(v@.subrange(0, v@.len() as int) =~= s@);
    is_ipv4_chars(v.as_slice(), 0, v.len())
}

/// The second octet of an address that starts with `172.` puts it into the private range.
pub open spec fn private_172(s: Seq<char>) -> bool {
    &&& has_prefix(s, "172."@)
    &&& number(split_on(s.skip(4), '.')[0], 255) matches Some(n) && 16 <= n <= 31
}

/// An address outside the ranges that are private, local or not for hosts. Of `172.` only
/// 172.16.0.0/12 is private.
pub open spec fn routable(s: Seq<char>) -> bool {
    &&& !has_prefix(s, "0."@)
    &&& !has_prefix(s, "127."@)
    &&& !has_prefix(s, "10."@)
    &&& !has_prefix(s, "192.168."@)
    &&& !has_prefix(s, "169.254."@)
    &&& !has_prefix(s, "255."@)
    &&& !private_172(s)
}

/// Whether `s`, an address, can be dialled from outside.
pub fn is_routable(s: &str) -> (r: bool)
    ensures
        r == routable(s@),
{
    if starts_with_text(s, "0.") || starts_with_text(s, "127.") || starts_with_text(s, "10.")
        || starts_with_text(s, "192.168.") || starts_with_text(s, "169.254.") || starts_with_text(
        s,
        "255.",
    ) {
        return false;
    }
    if starts_with_text(s, "172.") {
        proof {
            reveal_strlit("172.");
        }
        let v = to_chars(s);
        let e = find_char(v.as_slice(), 4, '.');
        proof {
            first_at_is_first(s@.skip(4), '.');
            assert(split_on(s@.skip(4), '.')[0] =~= v@.subrange(4, e as int));
        }
        match parse_number(v.as_slice(), 4, e, 255) {
            Some(n) => {
                if 16 <= n && n <= 31 {
                    return false;
                }
            },
            None => {},
        }
    }
    true
}

/// A digit or a dot.
pub open spec fn address_char(c: char) -> bool {
    is_digit(c) || c == '.'
}

/// The number of digits and dots that `s` starts with.
pub open spec fn address_run(s: Seq<char>) -> int
    decreases s.len(),
{
    if s.len() > 0 && address_char(s[0]) {
        1 + address_run(s.skip(1))
    } else {
        0
    }
}

/// A row of digits and dots lies within the text, and is not empty where a digit starts it.
pub proof fn address_run_bounds(s: Seq<char>)
    ensures
        0 <= address_run(s) <= s.len(),
        s.len() > 0 && is_digit(s[0]) ==> address_run(s) > 0,
    decreases s.len(),
{
    if s.len() > 0 && address_char(s[0]) {
        address_run_bounds(s.skip(1));
    }
}

/// The addresses in `s` that can be dialled: each row of digits and dots that starts with a digit
/// and is one.
pub open spec fn addresses(s: Seq<char>) -> Seq<Seq<char>>
    decreases s.len(),
{
    if s.len() == 0 {
        Seq::empty()
    } else if is_digit(s[0]) {
        proof {
            address_run_bounds(s);
        }
        let k = address_run(s);
        let token = s.take(k);
        let rest = addresses(s.skip(k));
        if ipv4(token) && routable(token) {
            seq![token] + rest
        } else {
            rest
        }
    } else {
        addresses(s.skip(1))
    }
}

/// The end of the row of digits and dots that starts at `a`.
fn end_of_run(v: &[char], a: usize) -> (r: usize)
    requires
        a <= v@.len(),
    ensures
        a <= r <= v@.len(),
        r == a + address_run(v@.skip(a as int)),
{
    let n = v.len();
    let mut i: usize = a;
    while i < n && (v[i] == '.' || ('0' <= v[i] && v[i] <= '9'))
        invariant
            n == v@.len(),
            a <= i <= n,
            address_run(v@.skip(a as int)) == i - a + address_run(v@.skip(i as int)),
        decreases n - i,
    {
        assert(v@.skip(i as int).skip(1) =~= v@.skip(i + 1));
        i = i + 1;
    }
    i
}

/// Finds the addresses in `s` that can be dialled, in order.
pub fn extract_ipv4(s: &str) -> (r: Vec<String>)
    ensures
        texts(r@) == addresses(s@),
{
    let v = to_chars(s);
    let n = v.len();
    let mut out: Vec<String> = Vec::new();
    let mut i: usize = 0;
    assert(v@.skip(0) =~= s@);
    assert(texts(out@) + addresses(s@) =~= addresses(s@));
    while i < n
        invariant
            n == v@.len(),
            i <= n,
            v@ == s@,
            texts(out@) + addresses(v@.skip(i as int)) == addresses(s@),
        decreases n - i,
    {
        let ghost rest = v@.skip(i as int);
        let ghost before = texts(out@);
        if '0' <= v[i] && v[i] <= '9' {
            proof {
                address_run_bounds(rest);
            }
            let e = end_of_run(v.as_slice(), i);
            let token = from_chars(v.as_slice(), i, e);
            assert(token@ =~= rest.take(e - i));
            assert(rest.skip(e - i) =~= v@.skip(e as int));
            if is_ipv4_chars(v.as_slice(), i, e) && is_routable(token.as_str()) {
                let ghost list = out@;
                out.push(token);
                proof {
                    texts_push(list, token);
                }
            }
            assert(texts(out@) + addresses(v@.skip(e as int)) =~= before + addresses(rest));
            i = e;
        } else {
            assert(rest.skip(1) =~= v@.skip(i + 1));
            i = i + 1;
        }
    }
    assert(v@.skip(i as int) =~= Seq::<char>::empty());
    assert(texts(out@) =~= addresses(s@));
    out
}

/// The addresses of several files, one file after the other.
pub open spec fn all_addresses(files: Seq<Seq<char>>) -> Seq<Seq<char>>
    decreases files.len(),
{
    if files.len() == 0 {
        Seq::empty()
    } else {
        all_addresses(files.drop_last()) + addresses(files.last())
    }
}

/// The peers that a node's files name, in the order of the files, each at its first place only.
/// `files` holds the contents of those files that could be read.
pub fn read_node_peers(files: &Vec<String>) -> (r: Vec<String>)
    ensures
        texts(r@) == distinct(all_addresses(texts(files@))),
{
    let mut out: Vec<String> = Vec::new();
    let mut i: usize = 0;
    assert(texts(out@) =~= Seq::<Seq<char>>::empty());
    assert(texts(files@).take(0) =~= Seq::<Seq<char>>::empty());
    while i < files.len()
        invariant
            i <= files@.len(),
            texts(out@) == distinct(all_addresses(texts(files@).take(i as int))),
        decreases files@.len() - i,
    {
        let found = extract_ipv4(files[i].as_str());
        extend_new(&mut out, &found);
        i = i + 1;
        proof {
            let upto = texts(files@).take(i as int);
            assert(upto.drop_last() =~= texts(files@).take(i - 1));
            assert(upto.last() == files@[i - 1]@);
            with_new_concat(Seq::empty(), all_addresses(upto.drop_last()), addresses(upto.last()));
        }
    }
    assert(texts(files@).take(i as int) =~= texts(files@));
    out
}

/// The fields of a comma-separated list, without the white space around them and without the
/// empty ones.
pub open spec fn csv_fields(s: Seq<char>) -> Seq<Seq<char>>
    decreases s.len(),
{
    let i = first_at(s, ',');
    let rest = if 0 <= i < s.len() {
        csv_fields(s.skip(i + 1))
    } else {
        Seq::empty()
    };
    let field = trimmed(s.take(i));
    if field.len() > 0 {
        seq![field] + rest
    } else {
        rest
    }
}

/// Splits a comma-separated list into its fields.
pub fn split_csv(v: &str) -> (r: Vec<String>)
    ensures
        texts(r@) == csv_fields(v@),
{
    let c = to_chars(v);
    let n = c.len();
    let mut out: Vec<String> = Vec::new();
    let mut a: usize = 0;
    assert(c@.skip(0) =~= v@);
    assert(texts(out@) + csv_fields(c@.skip(0)) =~= csv_fields(v@));
    loop
        invariant
            n == c@.len(),
            a <= n,
            texts(out@) + csv_fields(c@.skip(a as int)) == csv_fields(v@),
        decreases n - a,
    {
        let ghost rest = c@.skip(a as int);
        let ghost before = texts(out@);
        let ghost list = out@;
        let i = find_char(c.as_slice(), a, ',');
        let field = trim_chars(c.as_slice(), a, i);
        assert(c@.subrange(a as int, i as int) =~= rest.take(i - a));
        if !field.as_str().is_empty() {
            out.push(field);
            proof {
                texts_push(list, field);
            }
        }
        if i == n {
            assert(texts(out@) =~= before + csv_fields(rest));
            return out;
        }
        assert(rest.skip(i - a + 1) =~= c@.skip(i + 1));
        assert(texts(out@) + csv_fields(c@.skip(i + 1)) =~= before + csv_fields(rest));
        a = i + 1;
    }
}

/// The digits that `s` starts with.
pub open spec fn leading_digits(s: Seq<char>) -> Seq<char>
    decreases s.len(),
{
    if s.len() > 0 && is_digit(s[0]) {
        seq![s[0]] + leading_digits(s.skip(1))
    } else {
        Seq::empty()
    }
}

/// The round tip that the text `s` of a peer file states: the number behind the first
/// `"round_tip":`, with or without white space between. `None` where there is no such number or
/// it does not fit in 32 bits.
pub open spec fn stated_tip(s: Seq<char>) -> Option<u32> {
    let key = "\"round_tip\":"@;
    if exists|at: int| first_infix_at(s, key, at) {
        let at = choose|at: int| first_infix_at(s, key, at);
        let value = trim_front(s.skip(at + key.len()));
        match number(leading_digits(value), u32::MAX as nat) {
            Some(n) => Some(n as u32),
            None => None,
        }
    } else {
        None
    }
}

/// The end of the row of digits that starts at `a`.
fn end_of_digits(v: &[char], a: usize) -> (r: usize)
    requires
        a <= v@.len(),
    ensures
        a <= r <= v@.len(),
        v@.subrange(a as int, r as int) == leading_digits(v@.skip(a as int)),
    decreases v@.len() - a,
{
    if a < v.len() && '0' <= v[a] && v[a] <= '9' {
        let r = end_of_digits(v, a + 1);
        assert(v@.skip(a as int).skip(1) =~= v@.skip(a + 1));
        assert(v@.subrange(a as int, r as int) =~= seq![v@[a as int]] + v@.subrange(
            a + 1,
            r as int,
        ));
        r
    } else {
        assert(v@.subrange(a as int, a as int) =~= Seq::<char>::empty());
        a
    }
}

/// Reads the round tip out of the contents of a peer file.
pub fn extract_round_tip(contents: &str) -> (r: Option<u32>)
    ensures
        r == stated_tip(contents@),
{
    let v = to_chars(contents);
    let key = to_chars("\"round_tip\":");
    let n = v.len();
    match find_chars(v.as_slice(), key.as_slice()) {
        Some(at) => {
            let after: usize = at + key.len();
            let start = skip_white(v.as_slice(), after, n);
            proof {
                let chosen = choose|at: int| first_infix_at(v@, key@, at);
                assert(first_infix_at(v@, key@, at as int));
                first_infix_is_unique(v@, key@, at as int, chosen);
                assert(v@.subrange(after as int, n as int) =~= v@.skip(after as int));
                assert(v@.subrange(start as int, n as int) =~= v@.skip(start as int));
            }
            let end = end_of_digits(v.as_slice(), start);
            match parse_number(v.as_slice(), start, end, 0xffff_ffff) {
                Some(x) => Some(x as u32),
                None => None,
            }
        },
        None => {
            assert forall|at: int| !first_infix_at(v@, key@, at) by {
                if first_infix_at(v@, key@, at) {
                    assert(v@.subrange(at, at + key@.len()) == key@);
                }
            }
            None
        },
    }
}

/// A text has one first place.
proof fn first_infix_is_unique<T>(hay: Seq<T>, needle: Seq<T>, one: int, other: int)
    requires
        first_infix_at(hay, needle, one),
        first_infix_at(hay, needle, other),
    ensures
        one == other,
{
    if one < other {
        assert(hay.subrange(one, one + needle.len()) == needle);
    }
    if other < one {
        assert(hay.subrange(other, other + needle.len()) == needle);
    }
}

/// Where the body of a slash-separated path starts: behind a leading slash, or behind a leading
/// dot that stands for the current directory.
pub open spec fn path_body_at(s: Seq<char>) -> int {
    if s.len() > 0 && (s[0] == '/' || (s[0] == '.' && (s.len() == 1 || s[1] == '/'))) {
        1
    } else {
        0
    }
}

/// Where the last part of the body starts.
pub open spec fn last_part_at(s: Seq<char>, body: int) -> int
    decreases s.len(),
{
    if s.len() == 0 || s.len() <= body || s.last() == '/' {
        s.len() as int
    } else {
        last_part_at(s.drop_last(), body)
    }
}

/// `s` without the last part of its body and without the slash before it.
pub open spec fn without_last_part(s: Seq<char>, body: int) -> Seq<char> {
    let p = last_part_at(s, body);
    s.take(if p > body {
        p - 1
    } else {
        body
    })
}

/// The last part of the body names nothing: it is empty or a single dot.
pub open spec fn ends_blank(s: Seq<char>, body: int) -> bool {
    let part = s.skip(last_part_at(s, body));
    s.len() > body && (part.len() == 0 || (part.len() == 1 && part[0] == '.'))
}

/// `s` without the blank parts at its end.
pub open spec fn without_blank_parts(s: Seq<char>, body: int) -> Seq<char>
    decreases s.len(),
{
    if 0 <= body && ends_blank(s, body) {
        proof {
            last_part_bounds(s, body);
        }
        without_blank_parts(without_last_part(s, body), body)
    } else {
        s
    }
}

/// The last part lies in the body.
pub proof fn last_part_bounds(s: Seq<char>, body: int)
    requires
        0 <= body <= s.len(),
    ensures
        body <= last_part_at(s, body) <= s.len(),
    decreases s.len(),
{
    if s.len() > body && s.last() != '/' {
        last_part_bounds(s.drop_last(), body);
    }
}

/// The directory of a slash-separated path. `None` for an empty path and for the root.
pub open spec fn parent_dir(path: Seq<char>) -> Option<Seq<char>> {
    let body = path_body_at(path);
    let s = without_blank_parts(path, body);
    if s.len() > body {
        Some(without_blank_parts(without_last_part(s, body), body))
    } else if path.len() > 0 && path[0] == '.' {
        Some(Seq::empty())
    } else {
        None
    }
}

/// The path of `name` in the directory `dir`.
pub open spec fn in_dir(dir: Seq<char>, name: Seq<char>) -> Seq<char> {
    if dir.len() == 0 || dir.last() == '/' {
        dir + name
    } else {
        dir + seq!['/'] + name
    }
}

/// The path of `name` beside the file at `path`; in the current directory where `path` has none.
pub open spec fn beside(path: Seq<char>, name: Seq<char>) -> Seq<char> {
    in_dir(
        match parent_dir(path) {
            Some(dir) => dir,
            None => seq!['.'],
        },
        name,
    )
}

/// Where the last part of the first `len` characters starts.
fn find_last_part(v: &[char], len: usize, body: usize) -> (r: usize)
    requires
        body <= len <= v@.len(),
    ensures
        r == last_part_at(v@.take(len as int), body as int),
        body <= r <= len,
{
    let mut i: usize = len;
    while i > body && v[i - 1] != '/'
        invariant
            body <= i <= len <= v@.len(),
            last_part_at(v@.take(len as int), body as int) == last_part_at(
                v@.take(i as int),
                body as int,
            ),
        decreases i,
    {
        assert(v@.take(i as int).drop_last() =~= v@.take(i - 1));
        i = i - 1;
    }
    i
}

/// Drops blank parts off the first `len` characters.
fn drop_blank_parts(v: &[char], len: usize, body: usize) -> (r: usize)
    requires
        body <= len <= v@.len(),
    ensures
        body <= r <= len,
        v@.take(r as int) == without_blank_parts(v@.take(len as int), body as int),
{
    let mut n: usize = len;
    loop
        invariant
            body <= n <= len <= v@.len(),
            without_blank_parts(v@.take(len as int), body as int) == without_blank_parts(
                v@.take(n as int),
                body as int,
            ),
        decreases n,
    {
        if n <= body {
            return n;
        }
        let p = find_last_part(v, n, body);
        assert(v@.take(n as int).skip(p as int) =~= v@.subrange(p as int, n as int));
        let blank = p == n || (n - p == 1 && v[p] == '.');
        if !blank {
            return n;
        }
        let m: usize = if p > body {
            p - 1
        } else {
            body
        };
        assert(v@.take(n as int).take(m as int) =~= v@.take(m as int));
        n = m;
    }
}

/// The path of `name` beside the file at `path`.
pub fn path_beside(path: &str, name: &str) -> (r: String)
    ensures
        r@ == beside(path@, name@),
{
    let v = to_chars(path);
    let n = v.len();
    assert(v@.take(n as int) =~= path@);
    let body: usize = if n > 0 && (v[0] == '/' || (v[0] == '.' && (n == 1 || v[1] == '/'))) {
        1
    } else {
        0
    };
    let s = drop_blank_parts(v.as_slice(), n, body);
    let mut out: String;
    if s > body {
        let p = find_last_part(v.as_slice(), s, body);
        let m: usize = if p > body {
            p - 1
        } else {
            body
        };
        assert(v@.take(s as int).take(m as int) =~= v@.take(m as int));
        let e = drop_blank_parts(v.as_slice(), m, body);
        assert(v@.subrange(0, e as int) =~= v@.take(e as int));
        out = from_chars(v.as_slice(), 0, e);
        if e > 0 && v[e - 1] != '/' {
            out.push('/');
        }
    } else if n > 0 && v[0] == '.' {
        out = String::new();
    } else {
        out = String::new();
        out.push('.');
        out.push('/');
    }
    push_text(&mut out, name);
    assert(out@ =~= beside(path@, name@));
    out
}

/// The file of peer candidates that belongs to a node's peer file.
pub fn peer_candidates_path(node_peer_file: &str) -> (r: String)
    ensures
        r@ == beside(node_peer_file@, "peer_candidates.txt"@),
{
    path_beside(node_peer_file, "peer_candidates.txt")
}

/// A list is read field by field: each comma parts two lists.
pub proof fn commas_part_the_fields(a: Seq<char>, b: Seq<char>)
    requires
        forall|i: int| 0 <= i < a.len() ==> #[trigger] a[i] != ',',
    ensures
        csv_fields(a + seq![','] + b) == csv_fields(a) + csv_fields(b),
{
    let n = a.len() as int;
    let s = a + seq![','] + b;
    first_at_unique(s, ',', n);
    first_at_unique(a, ',', n);
    assert(s.take(n) =~= a);
    assert(a.take(n) =~= a);
    assert(s.skip(n + 1) =~= b);
    assert(csv_fields(a) + csv_fields(b) =~= csv_fields(s));
}

/// A field is read without the white space around it, and a field of white space is none.
pub proof fn field_is_trimmed(front: Seq<char>, field: Seq<char>, back: Seq<char>)
    requires
        forall|i: int| 0 <= i < front.len() ==> is_white(#[trigger] front[i]),
        forall|i: int| 0 <= i < back.len() ==> is_white(#[trigger] back[i]),
        forall|i: int| 0 <= i < field.len() ==> #[trigger] field[i] != ',',
        field.len() > 0 ==> !is_white(field[0]) && !is_white(field.last()),
    ensures
        csv_fields(front + field + back) == if field.len() > 0 {
            seq![field]
        } else {
            Seq::empty()
        },
{
    let s = front + field + back;
    let n = s.len() as int;
    assert forall|i: int| 0 <= i < n implies #[trigger] s[i] != ',' by {
        if i < front.len() {
            assert(is_white(front[i]));
        } else if i < front.len() + field.len() {
            assert(field[i - front.len()] != ',');
        } else {
            assert(is_white(back[i - front.len() - field.len()]));
        }
    }
    first_at_unique(s, ',', n);
    assert(s.take(n) =~= s);
    trimming_takes_white_space_only(front, field, back);
}

/// The tip is the number behind the first key, whatever is before the key and behind the number:
/// `None` where the number does not fit in 32 bits or where there is none.
pub proof fn tip_stands_behind_its_key(front: Seq<char>, gap: Seq<char>, n: nat, rest: Seq<char>)
    requires
        ({
            let s = front + "\"round_tip\":"@;
            forall|i: int|
                0 <= i < front.len() ==> #[trigger] s.subrange(
                    i,
                    i + "\"round_tip\":"@.len(),
                ) != "\"round_tip\":"@
        }),
        forall|i: int| 0 <= i < gap.len() ==> is_white(#[trigger] gap[i]),
        rest.len() > 0 ==> !is_digit(rest[0]),
    ensures
        ({
            let key = "\"round_tip\":"@;
            &&& stated_tip(front + key + gap + decimal(n) + rest) == if n <= 4_294_967_295 {
                Some(n as u32)
            } else {
                None
            }
            &&& rest.len() > 0 && !is_white(rest[0]) ==> stated_tip(front + key + gap + rest) is None
        }),
{
    let key = "\"round_tip\":"@;
    reveal_strlit("\"round_tip\":");
    let digits = decimal(n);
    zeros_and_a_plus_change_nothing(n, 0, 4_294_967_295);
    assert(Seq::new(0, |i: int| '0') + digits =~= digits);
    decimal_reads_back(n, n);
    assert(digits.len() > 0) by {
        if digits.len() == 0 {
            other_texts_are_no_numbers(digits, n);
        }
    }
    assert forall|i: int| 0 <= i < digits.len() implies is_digit(#[trigger] digits[i]) by {
        if !is_digit(digits[i]) && !(i == 0 && digits[0] == '+') {
            other_texts_are_no_numbers(digits, n);
        }
        if i == 0 && digits[0] == '+' {
            first_digit_is_no_sign(n);
        }
    }
    let none = Seq::<char>::empty();
    key_is_found(front, gap + (digits + rest));
    assert(front + key + (gap + (digits + rest)) =~= front + key + gap + digits + rest);
    digits_lead(digits, rest);
    white_then(gap, digits + rest);
    if rest.len() > 0 && !is_white(rest[0]) {
        key_is_found(front, gap + rest);
        assert(front + key + (gap + rest) =~= front + key + gap + rest);
        white_then(gap, rest);
        assert(none + rest =~= rest);
        digits_lead(none, rest);
    }
}

proof fn first_digit_is_no_sign(n: nat)
    ensures
        decimal(n).len() > 0,
        is_digit(decimal(n)[0]),
    decreases n,
{
    if n >= 10 {
        first_digit_is_no_sign(n / 10);
    }
}

/// The first key of a text decides.
proof fn key_is_found(front: Seq<char>, value: Seq<char>)
    requires
        ({
            let s = front + "\"round_tip\":"@;
            forall|i: int|
                0 <= i < front.len() ==> #[trigger] s.subrange(
                    i,
                    i + "\"round_tip\":"@.len(),
                ) != "\"round_tip\":"@
        }),
    ensures
        ({
            let number = number(leading_digits(trim_front(value)), u32::MAX as nat);
            stated_tip(front + "\"round_tip\":"@ + value) == match number {
                Some(n) => Some(n as u32),
                None => None,
            }
        }),
{
    let key = "\"round_tip\":"@;
    reveal_strlit("\"round_tip\":");
    let head = front + key;
    let s = head + value;
    let at = front.len() as int;
    assert(s.subrange(at, at + key.len()) =~= key);
    assert forall|i: int| 0 <= i < at implies #[trigger] s.subrange(i, i + key.len()) != key by {
        assert(s.subrange(i, i + key.len()) =~= head.subrange(i, i + key.len()));
    }
    assert(first_infix_at(s, key, at));
    let chosen = choose|at: int| first_infix_at(s, key, at);
    first_infix_is_unique(s, key, at, chosen);
    assert(s.skip(at + key.len()) =~= value);
}

proof fn white_then(gap: Seq<char>, value: Seq<char>)
    requires
        forall|i: int| 0 <= i < gap.len() ==> is_white(#[trigger] gap[i]),
        value.len() > 0,
        !is_white(value[0]),
    ensures
        trim_front(gap + value) == value,
    decreases gap.len(),
{
    if gap.len() > 0 {
        let fewer = gap.skip(1);
        assert forall|i: int| 0 <= i < fewer.len() implies is_white(#[trigger] fewer[i]) by {
            assert(is_white(gap[i + 1]));
        }
        white_then(fewer, value);
        assert(is_white(gap[0]));
        assert((gap + value).skip(1) =~= fewer + value);
    } else {
        assert(gap + value =~= value);
    }
}

proof fn digits_lead(digits: Seq<char>, rest: Seq<char>)
    requires
        forall|i: int| 0 <= i < digits.len() ==> is_digit(#[trigger] digits[i]),
        rest.len() > 0 ==> !is_digit(rest[0]),
    ensures
        leading_digits(digits + rest) == digits,
    decreases digits.len(),
{
    if digits.len() > 0 {
        let fewer = digits.skip(1);
        assert forall|i: int| 0 <= i < fewer.len() implies is_digit(#[trigger] fewer[i]) by {
            assert(is_digit(digits[i + 1]));
        }
        digits_lead(fewer, rest);
        assert(is_digit(digits[0]));
        assert((digits + rest).skip(1) =~= fewer + rest);
        assert(seq![digits[0]] + fewer =~= digits);
    } else {
        assert(digits + rest =~= rest);
    }
}

/// A text without the key states no tip.
pub proof fn no_key_no_tip(s: Seq<char>)
    requires
        forall|i: int|
            0 <= i <= s.len() - "\"round_tip\":"@.len() ==> #[trigger] s.subrange(
                i,
                i + "\"round_tip\":"@.len(),
            ) != "\"round_tip\":"@,
    ensures
        stated_tip(s) is None,
{
    let key = "\"round_tip\":"@;
    assert forall|at: int| !first_infix_at(s, key, at) by {
        if first_infix_at(s, key, at) {
            assert(s.subrange(at, at + key.len()) == key);
        }
    }
}

/// The last part of a path starts behind its last slash.
proof fn last_part_is_behind_the_slash(s: Seq<char>, body: int, p: int)
    requires
        0 <= body <= p <= s.len(),
        p > body ==> s[p - 1] == '/',
        forall|i: int| p <= i < s.len() ==> #[trigger] s[i] != '/',
    ensures
        last_part_at(s, body) == p,
    decreases s.len(),
{
    if s.len() > p {
        assert(s.last() != '/');
        last_part_is_behind_the_slash(s.drop_last(), body, p);
    }
}

/// A file beside another one lies in the same directory: the name of the one replaces that of the
/// other, and all before it stays.
pub proof fn name_replaces_name(dir: Seq<char>, file: Seq<char>, name: Seq<char>)
    requires
        file.len() > 0,
        file != seq!['.'],
        forall|i: int| 0 <= i < file.len() ==> #[trigger] file[i] != '/',
        dir.len() > 0,
        dir.last() != '/',
        dir.last() == '.' ==> dir.len() == 1 || dir[dir.len() - 2] != '/',
    ensures
        beside(dir + seq!['/'] + file, name) == dir + seq!['/'] + name,
        beside(seq!['/'] + file, name) == seq!['/'] + name,
        beside(file, name) == name,
        beside(Seq::empty(), name) == seq!['.', '/'] + name,
{
    let slash = seq!['/'];
    let path = dir + slash + file;
    let body = path_body_at(path);
    let n = dir.len() as int;
    assert(path[0] == dir[0]);
    assert(path[n] == '/');
    if n > 1 {
        assert(path[1] == dir[1]);
    }
    assert(body <= n) by {
        if dir[0] == '/' {
            assert(n > 0);
        }
    }
    assert forall|i: int| n + 1 <= i < path.len() implies #[trigger] path[i] != '/' by {
        assert(file[i - n - 1] != '/');
    }
    last_part_is_behind_the_slash(path, body, n + 1);
    assert(path.skip(n + 1) =~= file);
    assert(file.len() == 1 ==> file =~= seq![file[0]]);
    assert(without_blank_parts(path, body) == path);
    assert(path.take(n) =~= dir);
    assert(without_last_part(path, body) == dir);
    dir_stays(dir, body);
    let top = slash + file;
    assert forall|i: int| 1 <= i < top.len() implies #[trigger] top[i] != '/' by {
        assert(file[i - 1] != '/');
    }
    last_part_is_behind_the_slash(top, 1, 1);
    assert(top.skip(1) =~= file);
    assert(top.take(1) =~= slash);
    assert(file[0] != '/');
    assert(file.len() > 1 ==> file[1] != '/');
    assert(path_body_at(file) == 0) by {
        if file[0] == '.' && file.len() == 1 {
            assert(file =~= seq!['.']);
        }
    }
    last_part_is_behind_the_slash(file, 0, 0);
    assert(file.skip(0) =~= file);
    let none = Seq::<char>::empty();
    assert(file.take(0) =~= none);
    assert(none + name =~= name);
    assert(seq!['.'] + slash + name =~= seq!['.', '/'] + name);
}

/// A directory whose last part names something is left as it is.
proof fn dir_stays(dir: Seq<char>, body: int)
    requires
        0 <= body <= 1,
        dir.len() > 0,
        dir.last() != '/',
        dir.last() == '.' ==> (dir.len() == 1 && body == 1) || (dir.len() > 1 && dir[dir.len() - 2]
            != '/'),
        body == 1 && dir.len() == 2 ==> dir[1] != '.' && dir[1] != '/',
    ensures
        without_blank_parts(dir, body) == dir,
{
    if dir.len() > body {
        let p = last_part_at(dir, body);
        last_part_bounds(dir, body);
        part_has_no_slash(dir, body);
        let part = dir.skip(p);
        assert(p < dir.len()) by {
            assert(last_part_at(dir, body) == last_part_at(dir.drop_last(), body));
            last_part_bounds(dir.drop_last(), body);
        }
        assert(part.last() == dir.last());
        assert(!ends_blank(dir, body));
    }
}

proof fn part_has_no_slash(s: Seq<char>, body: int)
    requires
        0 <= body <= s.len(),
    ensures
        last_part_at(s, body) > body ==> s[last_part_at(s, body) - 1] == '/',
        forall|i: int| last_part_at(s, body) <= i < s.len() ==> #[trigger] s[i] != '/',
    decreases s.len(),
{
    last_part_bounds(s, body);
    if s.len() > body && s.last() != '/' {
        let fewer = s.drop_last();
        part_has_no_slash(fewer, body);
        last_part_bounds(fewer, body);
        assert forall|i: int| last_part_at(s, body) <= i < s.len() implies #[trigger] s[i]
            != '/' by {
            if i < fewer.len() {
                assert(fewer[i] != '/');
            }
        }
    }
}

/// The addresses of files follow each other as the files do.
pub proof fn files_are_read_in_order(files: Seq<Seq<char>>, file: Seq<char>)
    ensures
        all_addresses(Seq::empty()) == Seq::<Seq<char>>::empty(),
        all_addresses(files.push(file)) == all_addresses(files) + addresses(file),
{
    assert(files.push(file).drop_last() =~= files);
}

/// Slashes and single dots at the end of a path name nothing: the path without them has the same
/// directory. The root and the empty path have none, and a single dot lies in the current one.
pub proof fn blank_ends_name_nothing(path: Seq<char>, name: Seq<char>)
    requires
        path.len() > 0,
        path.len() > 1 || (path[0] != '/' && path[0] != '.'),
    ensures
        beside(path + seq!['/'], name) == beside(path, name),
        beside(path + seq!['/', '.'], name) == beside(path, name),
        beside(seq!['/'], name) == seq!['.', '/'] + name,
        beside(seq!['.'], name) == name,
{
    let one = path + seq!['/'];
    let two = path + seq!['/', '.'];
    let body = path_body_at(path);
    let n = path.len() as int;
    assert(path_body_at(one) == body && path_body_at(two) == body) by {
        assert(one[0] == path[0] && two[0] == path[0]);
        if n > 1 {
            assert(one[1] == path[1] && two[1] == path[1]);
        }
    }
    last_part_is_behind_the_slash(one, body, n + 1);
    assert(one.skip(n + 1).len() == 0);
    assert(one.take(n) =~= path);
    assert(without_last_part(one, body) == path);
    assert(without_blank_parts(one, body) == without_blank_parts(path, body));
    last_part_is_behind_the_slash(two, body, n + 1);
    assert(two.skip(n + 1) =~= seq!['.']);
    assert(two.take(n) =~= path);
    assert(without_last_part(two, body) == path);
    assert(without_blank_parts(two, body) == without_blank_parts(path, body));
    let slash = seq!['/'];
    let dot = seq!['.'];
    let none = Seq::<char>::empty();
    assert(path_body_at(slash) == 1 && path_body_at(dot) == 1);
    assert(without_blank_parts(slash, 1) == slash);
    assert(without_blank_parts(dot, 1) == dot);
    assert(none + name =~= name);
    assert(dot + slash + name =~= seq!['.', '/'] + name);
}

/// An address is made of four parts with dots between them, each of one to three characters that
/// spell a number up to 255; nothing else is one.
pub proof fn address_has_four_parts(
    a: Seq<char>,
    b: Seq<char>,
    c: Seq<char>,
    d: Seq<char>,
    s: Seq<char>,
)
    requires
        s == a + seq!['.'] + (b + seq!['.'] + (c + seq!['.'] + d)),
        !a.contains('.') && !b.contains('.') && !c.contains('.') && !d.contains('.'),
    ensures
        ipv4(s) <==> a.len() <= 3 && b.len() <= 3 && c.len() <= 3 && d.len() <= 3 && number(a, 255)
            is Some && number(b, 255) is Some && number(c, 255) is Some && number(d, 255) is Some,
{
    part_then(c, d);
    part_then(b, c + seq!['.'] + d);
    part_then(a, b + seq!['.'] + (c + seq!['.'] + d));
    let parts = split_on(s, '.');
    no_part_behind(d);
    assert(parts =~= seq![a, b, c, d]);
    assert(octet(parts[0]) <==> a.len() <= 3 && number(a, 255) is Some);
    assert(octet(parts[1]) <==> b.len() <= 3 && number(b, 255) is Some);
    assert(octet(parts[2]) <==> c.len() <= 3 && number(c, 255) is Some);
    assert(octet(parts[3]) <==> d.len() <= 3 && number(d, 255) is Some);
}

/// A text with fewer dots than three, or with more, is no address.
pub proof fn address_has_three_dots(s: Seq<char>)
    ensures
        ipv4(s) ==> split_on(s, '.').len() == 4,
        !s.contains('.') ==> !ipv4(s),
{
    if !s.contains('.') {
        no_part_behind(s);
    }
}

proof fn part_then(x: Seq<char>, rest: Seq<char>)
    requires
        !x.contains('.'),
    ensures
        split_on(x + seq!['.'] + rest, '.') == seq![x] + split_on(rest, '.'),
{
    let s = x + seq!['.'] + rest;
    let n = x.len() as int;
    assert forall|i: int| 0 <= i < n implies s[i] != '.' by {
        if s[i] == '.' {
            assert(x[i] == '.');
        }
    }
    first_at_unique(s, '.', n);
    assert(s.take(n) =~= x);
    assert(s.skip(n + 1) =~= rest);
}

proof fn no_part_behind(x: Seq<char>)
    requires
        !x.contains('.'),
    ensures
        split_on(x, '.') == seq![x],
{
    assert forall|i: int| 0 <= i < x.len() implies x[i] != '.' by {
        if x[i] == '.' {
            assert(x.contains('.'));
        }
    }
    first_at_unique(x, '.', x.len() as int);
}

/// No text that starts with a private, local or otherwise unused range can be dialled.
pub proof fn private_ranges_are_not_routable(rest: Seq<char>)
    ensures
        !routable("0."@ + rest),
        !routable("10."@ + rest),
        !routable("127."@ + rest),
        !routable("255."@ + rest),
        !routable("192.168."@ + rest),
        !routable("169.254."@ + rest),
{
    prefix_is_what_comes_first("0."@, "0."@, rest);
    prefix_is_what_comes_first("10."@, "10."@, rest);
    prefix_is_what_comes_first("127."@, "127."@, rest);
    prefix_is_what_comes_first("255."@, "255."@, rest);
    prefix_is_what_comes_first("192.168."@, "192.168."@, rest);
    prefix_is_what_comes_first("169.254."@, "169.254."@, rest);
}

} // verus!
