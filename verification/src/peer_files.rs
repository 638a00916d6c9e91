//! What the peer daemon writes, its readers read back: the gateway finds the live peers in their
//! order and the tip of the network in the peer file, and the daemon itself finds its candidates
//! again.
use vstd::prelude::*;
use crate::lists::distinct;
use crate::peerd::{keeps_previous, peers_file, quoted, tip_text, trusted_pool};
use crate::peers::{
    address_char, address_run, address_run_bounds, addresses, all_addresses, ipv4, leading_digits,
    routable, stated_tip,
};
use crate::text::{
    all_digits, decimal, decimal_reads_back, first_at, first_at_unique, first_infix_at, is_digit,
    has_prefix, joined, lines_of, number, split_on, trim_front, without_cr,
};

verus! {

/// A text that is found as an address: digits and dots, a digit first, an IPv4 address that can
/// be dialled.
pub open spec fn address_token(s: Seq<char>) -> bool {
    &&& s.len() > 0
    &&& is_digit(s[0])
    &&& forall|i: int| 0 <= i < s.len() ==> address_char(#[trigger] s[i])
    &&& ipv4(s)
    &&& routable(s)
}

/// Every address that is found in a text is one that a peer file gives back.
pub proof fn found_addresses_are_tokens(s: Seq<char>)
    ensures
        forall|i: int| 0 <= i < addresses(s).len() ==> address_token(#[trigger] addresses(s)[i]),
    decreases s.len(),
{
    if s.len() > 0 {
        if is_digit(s[0]) {
            address_run_bounds(s);
            run_is_of_address_chars(s);
            let k = address_run(s);
            let token = s.take(k);
            let rest = addresses(s.skip(k));
            found_addresses_are_tokens(s.skip(k));
            assert forall|i: int| 0 <= i < token.len() implies address_char(#[trigger] token[i]) by {
                assert(token[i] == s[i]);
            }
            assert forall|i: int| 0 <= i < addresses(s).len() implies address_token(
                #[trigger] addresses(s)[i],
            ) by {
                if ipv4(token) && routable(token) {
                    if i == 0 {
                        assert(addresses(s)[i] == token);
                    } else {
                        assert(addresses(s)[i] == rest[i - 1]);
                    }
                } else {
                    assert(addresses(s)[i] == rest[i]);
                }
            }
        } else {
            found_addresses_are_tokens(s.skip(1));
            assert(addresses(s) == addresses(s.skip(1)));
        }
    }
}

proof fn run_is_of_address_chars(s: Seq<char>)
    ensures
        forall|i: int| 0 <= i < address_run(s) ==> address_char(#[trigger] s[i]),
    decreases s.len(),
{
    address_run_bounds(s);
    if s.len() > 0 && address_char(s[0]) {
        run_is_of_address_chars(s.skip(1));
        assert forall|i: int| 0 <= i < address_run(s) implies address_char(#[trigger] s[i]) by {
            if i > 0 {
                assert(s[i] == s.skip(1)[i - 1]);
            }
        }
    }
}

/// `s` does not go on with an address: it is empty or starts with another character.
spec fn breaks(s: Seq<char>) -> bool {
    s.len() == 0 || !address_char(s[0])
}

/// A row of digits and dots ends where the text goes on with something else.
proof fn run_ends(t: Seq<char>, rest: Seq<char>)
    requires
        forall|i: int| 0 <= i < t.len() ==> address_char(#[trigger] t[i]),
        breaks(rest),
    ensures
        address_run(t + rest) == t.len(),
    decreases t.len(),
{
    if t.len() > 0 {
        assert((t + rest).skip(1) =~= t.skip(1) + rest);
        assert forall|i: int| 0 <= i < t.skip(1).len() implies address_char(
            #[trigger] t.skip(1)[i],
        ) by {
            assert(t.skip(1)[i] == t[i + 1]);
        }
        run_ends(t.skip(1), rest);
    } else {
        assert(t + rest =~= rest);
    }
}

/// The row at the start of a text is not changed by what follows behind a break.
proof fn run_stays(a: Seq<char>, b: Seq<char>)
    requires
        breaks(b),
    ensures
        address_run(a + b) == address_run(a),
    decreases a.len(),
{
    if a.len() > 0 {
        assert((a + b).skip(1) =~= a.skip(1) + b);
        run_stays(a.skip(1), b);
    } else {
        assert(a + b =~= b);
    }
}

/// The addresses of two texts with a break between them are those of the one and of the other.
proof fn addresses_concat(a: Seq<char>, b: Seq<char>)
    requires
        breaks(b),
    ensures
        addresses(a + b) == addresses(a) + addresses(b),
    decreases a.len(),
{
    let s = a + b;
    if a.len() == 0 {
        assert(s =~= b);
        assert(addresses(a) + addresses(b) =~= addresses(b));
    } else if is_digit(a[0]) {
        run_stays(a, b);
        address_run_bounds(a);
        let k = address_run(a);
        assert(s.take(k) =~= a.take(k));
        assert(s.skip(k) =~= a.skip(k) + b);
        addresses_concat(a.skip(k), b);
        let rest = addresses(a.skip(k));
        assert(seq![a.take(k)] + (rest + addresses(b)) =~= (seq![a.take(k)] + rest) + addresses(b));
    } else {
        assert(s.skip(1) =~= a.skip(1) + b);
        addresses_concat(a.skip(1), b);
    }
}

/// A text without digits holds no address.
proof fn no_digit_no_address(s: Seq<char>)
    requires
        forall|i: int| 0 <= i < s.len() ==> !is_digit(#[trigger] s[i]),
    ensures
        addresses(s) == Seq::<Seq<char>>::empty(),
    decreases s.len(),
{
    if s.len() > 0 {
        assert forall|i: int| 0 <= i < s.skip(1).len() implies !is_digit(#[trigger] s.skip(1)[i]) by {
            assert(s.skip(1)[i] == s[i + 1]);
        }
        no_digit_no_address(s.skip(1));
    }
}

/// What stands before the first digit does not matter.
proof fn addresses_after(head: Seq<char>, s: Seq<char>)
    requires
        forall|i: int| 0 <= i < head.len() ==> !is_digit(#[trigger] head[i]),
    ensures
        addresses(head + s) == addresses(s),
    decreases head.len(),
{
    if head.len() > 0 {
        assert((head + s).skip(1) =~= head.skip(1) + s);
        assert forall|i: int| 0 <= i < head.skip(1).len() implies !is_digit(
            #[trigger] head.skip(1)[i],
        ) by {
            assert(head.skip(1)[i] == head[i + 1]);
        }
        addresses_after(head.skip(1), s);
    } else {
        assert(head + s =~= s);
    }
}

/// A row of digits and dots with a break behind it is one token.
proof fn token_then(t: Seq<char>, rest: Seq<char>)
    requires
        t.len() > 0,
        is_digit(t[0]),
        forall|i: int| 0 <= i < t.len() ==> address_char(#[trigger] t[i]),
        breaks(rest),
    ensures
        addresses(t + rest) == if ipv4(t) && routable(t) {
            seq![t] + addresses(rest)
        } else {
            addresses(rest)
        },
{
    run_ends(t, rest);
    assert((t + rest).take(t.len() as int) =~= t);
    assert((t + rest).skip(t.len() as int) =~= rest);
}

/// The digits of a number: at least one, and digits only.
proof fn decimal_digits(n: nat)
    ensures
        decimal(n).len() > 0,
        all_digits(decimal(n)),
    decreases n,
{
    if n >= 10 {
        decimal_digits(n / 10);
    }
}

/// A number is no address.
proof fn number_is_no_address(n: nat, rest: Seq<char>)
    requires
        breaks(rest),
    ensures
        addresses(decimal(n) + rest) == addresses(rest),
{
    decimal_digits(n);
    let t = decimal(n);
    assert(is_digit(t[0]));
    assert forall|i: int| 0 <= i < t.len() implies address_char(#[trigger] t[i]) by {
        assert(is_digit(t[i]));
    }
    first_at_unique(t, '.', t.len() as int);
    assert(split_on(t, '.').len() == 1);
    token_then(t, rest);
}

/// The list of live peers in a peer file holds exactly their addresses.
proof fn list_reads_back(ips: Seq<Seq<char>>)
    requires
        forall|i: int| 0 <= i < ips.len() ==> address_token(#[trigger] ips[i]),
    ensures
        addresses(joined(quoted(ips), ","@)) == ips,
    decreases ips.len(),
{
    reveal_strlit(",");
    let list = quoted(ips);
    if ips.len() == 0 {
        assert(joined(list, ","@) =~= Seq::<char>::empty());
        assert(ips =~= Seq::empty());
    } else {
        let before = ips.drop_last();
        let ip = ips.last();
        let q = seq!['"'] + ip + seq!['"'];
        assert(address_token(ips[ips.len() - 1]));
        assert(list.last() =~= q);
        assert(list.drop_last() =~= quoted(before));
        list_reads_back(before);
        let tail = seq!['"'];
        no_digit_no_address(tail);
        token_then(ip, tail);
        addresses_after(seq!['"'], ip + tail);
        assert(seq!['"'] + (ip + tail) =~= q);
        assert(seq![ip] + Seq::<Seq<char>>::empty() =~= seq![ip]);
        assert(addresses(q) == seq![ip]);
        if ips.len() == 1 {
            assert(joined(list, ","@) == list[0]);
            assert(ips =~= seq![ip]);
        } else {
            addresses_after(","@, q);
            addresses_concat(joined(quoted(before), ","@), ","@ + q);
            assert(joined(list, ","@) =~= joined(quoted(before), ","@) + (","@ + q));
            assert(before + seq![ip] =~= ips);
        }
    }
}

/// The gateway reads the live peers out of the peer file as the daemon ranked them.
pub proof fn peers_file_reads_back(ips: Seq<Seq<char>>, candidates: nat, tip: Option<u32>)
    requires
        forall|i: int| 0 <= i < ips.len() ==> address_token(#[trigger] ips[i]),
        ips.no_duplicates(),
    ensures
        addresses(peers_file(ips, candidates, tip)) == ips,
        distinct(all_addresses(seq![peers_file(ips, candidates, tip)])) == ips,
{
    reveal_strlit("{\"live_servers\":[");
    reveal_strlit("],\"n_candidates\":");
    reveal_strlit(",\"round_tip\":");
    reveal_strlit(",\"candidate_fallback\":false}");
    reveal_strlit("null");
    let p1 = "{\"live_servers\":["@;
    let list = joined(quoted(ips), ","@);
    let p2 = "],\"n_candidates\":"@;
    let p3 = ",\"round_tip\":"@;
    let p4 = ",\"candidate_fallback\":false}"@;
    let file = peers_file(ips, candidates, tip);
    list_reads_back(ips);
    no_digit_no_address(p4);
    let end3 = tip_text(tip) + p4;
    match tip {
        Some(round) => {
            number_is_no_address(round as nat, p4);
        },
        None => {
            addresses_after("null"@, p4);
        },
    }
    addresses_after(p3, end3);
    let end2 = p3 + end3;
    number_is_no_address(candidates, end2);
    addresses_after(p2, decimal(candidates) + end2);
    let end1 = p2 + (decimal(candidates) + end2);
    addresses_concat(list, end1);
    addresses_after(p1, list + end1);
    assert(file =~= p1 + (list + end1));
    assert(ips + Seq::<Seq<char>>::empty() =~= ips);
    let files = seq![file];
    assert(files.drop_last() =~= Seq::<Seq<char>>::empty());
    assert(files.last() == file);
    assert(all_addresses(files.drop_last()) =~= Seq::<Seq<char>>::empty());
    assert(all_addresses(files) =~= Seq::<Seq<char>>::empty() + addresses(file));
    assert(all_addresses(files) =~= ips);
    distinct_of_distinct(ips);
}

/// A list without repeats stays as it is.
proof fn distinct_of_distinct(list: Seq<Seq<char>>)
    requires
        list.no_duplicates(),
    ensures
        distinct(list) == list,
    decreases list.len(),
{
    if list.len() > 0 {
        let before = list.drop_last();
        distinct_of_distinct(before);
        assert(!before.contains(list.last())) by {
            if before.contains(list.last()) {
                let k = choose|k: int| 0 <= k < before.len() && before[k] == list.last();
                assert(list[k] == list[list.len() - 1]);
            }
        }
        assert(before.push(list.last()) =~= list);
    } else {
        assert(list =~= Seq::empty());
    }
}

/// Nowhere in `s` does a quotation mark stand before `x`.
spec fn no_pair(s: Seq<char>, x: char) -> bool {
    forall|i: int| #![trigger s[i]] 0 <= i < s.len() - 1 ==> !(s[i] == '"' && s[i + 1] == x)
}

proof fn no_pair_concat(a: Seq<char>, b: Seq<char>, x: char)
    requires
        no_pair(a, x),
        no_pair(b, x),
        a.len() == 0 || b.len() == 0 || a.last() != '"' || b[0] != x,
    ensures
        no_pair(a + b, x),
{
    let s = a + b;
    assert forall|i: int| #![trigger s[i]] 0 <= i < s.len() - 1 implies !(s[i] == '"' && s[i + 1]
        == x) by {
        if i + 1 < a.len() {
            assert(a[i] == s[i] && a[i + 1] == s[i + 1]);
        } else if i >= a.len() {
            assert(b[i - a.len()] == s[i] && b[i - a.len() + 1] == s[i + 1]);
        }
    }
}

proof fn list_has_no_pair(ips: Seq<Seq<char>>, x: char)
    requires
        forall|i: int| 0 <= i < ips.len() ==> address_token(#[trigger] ips[i]),
        x == 'r' || x == 'c',
    ensures
        no_pair(joined(quoted(ips), ","@), x),
    decreases ips.len(),
{
    reveal_strlit(",");
    let list = quoted(ips);
    if ips.len() > 0 {
        let before = ips.drop_last();
        let ip = ips.last();
        let q = seq!['"'] + ip + seq!['"'];
        assert(address_token(ips[ips.len() - 1]));
        assert(list.last() =~= q);
        assert(list.drop_last() =~= quoted(before));
        assert(no_pair(q, x)) by {
            assert forall|i: int| #![trigger q[i]] 0 <= i < q.len() - 1 implies !(q[i] == '"' && q[i
                + 1] == x) by {
                if i + 1 < q.len() - 1 {
                    assert(q[i + 1] == ip[i]);
                    assert(address_char(ip[i]));
                }
            }
        }
        list_has_no_pair(before, x);
        if ips.len() > 1 {
            no_pair_concat(joined(quoted(before), ","@), ","@, x);
            no_pair_concat(joined(quoted(before), ","@) + ","@, q, x);
        }
    }
}

/// Digits hold no quotation mark.
proof fn digits_have_no_pair(n: nat, x: char)
    ensures
        no_pair(decimal(n), x),
        decimal(n).last() != '"',
{
    decimal_digits(n);
    assert forall|i: int| #![trigger decimal(n)[i]] 0 <= i < decimal(n).len() - 1 implies !(decimal(
        n,
    )[i] == '"' && decimal(n)[i + 1] == x) by {
        assert(is_digit(decimal(n)[i]));
    }
    assert(is_digit(decimal(n)[decimal(n).len() - 1]));
}

/// The digits in front of something else are read as far as they go.
proof fn digits_then(d: Seq<char>, rest: Seq<char>)
    requires
        all_digits(d),
        rest.len() == 0 || !is_digit(rest[0]),
    ensures
        leading_digits(d + rest) == d,
    decreases d.len(),
{
    if d.len() > 0 {
        assert(is_digit(d[0]));
        assert((d + rest).skip(1) =~= d.skip(1) + rest);
        assert(all_digits(d.skip(1))) by {
            assert forall|i: int| 0 <= i < d.skip(1).len() implies is_digit(
                #[trigger] d.skip(1)[i],
            ) by {
                assert(d.skip(1)[i] == d[i + 1]);
            }
        }
        digits_then(d.skip(1), rest);
        assert(seq![d[0]] + d.skip(1) =~= d);
    } else {
        assert(d + rest =~= rest);
        assert(leading_digits(rest) =~= d);
    }
}

/// What stands before the round tip in a peer file, its comma with it.
spec fn before_tip(ips: Seq<Seq<char>>, candidates: nat) -> Seq<char> {
    "{\"live_servers\":["@ + joined(quoted(ips), ","@) + "],\"n_candidates\":"@ + decimal(candidates)
        + seq![',']
}

proof fn before_tip_has_no_pair(ips: Seq<Seq<char>>, candidates: nat, x: char)
    requires
        forall|i: int| 0 <= i < ips.len() ==> address_token(#[trigger] ips[i]),
        x == 'r' || x == 'c',
    ensures
        no_pair(before_tip(ips, candidates), x),
{
    reveal_strlit("{\"live_servers\":[");
    reveal_strlit("],\"n_candidates\":");
    let p1 = "{\"live_servers\":["@;
    let list = joined(quoted(ips), ","@);
    let p2 = "],\"n_candidates\":"@;
    list_has_no_pair(ips, x);
    digits_have_no_pair(candidates, x);
    decimal_digits(candidates);
    assert(no_pair(p1, x));
    assert(no_pair(p2, x));
    no_pair_concat(p1, list, x);
    no_pair_concat(p1 + list, p2, x);
    no_pair_concat(p1 + list + p2, decimal(candidates), x);
    no_pair_concat(p1 + list + p2 + decimal(candidates), seq![','], x);
}

/// The gateway reads the tip of the network out of the peer file as the daemon found it, or finds
/// none where the daemon had none.
pub proof fn tip_reads_back(ips: Seq<Seq<char>>, candidates: nat, tip: Option<u32>)
    requires
        forall|i: int| 0 <= i < ips.len() ==> address_token(#[trigger] ips[i]),
    ensures
        stated_tip(peers_file(ips, candidates, tip)) == tip,
{
    let file = peers_file(ips, candidates, tip);
    let head = before_tip(ips, candidates);
    let key = "\"round_tip\":"@;
    let p3 = ",\"round_tip\":"@;
    let p4 = ",\"candidate_fallback\":false}"@;
    reveal_strlit("\"round_tip\":");
    reveal_strlit(",\"round_tip\":");
    reveal_strlit(",\"candidate_fallback\":false}");
    reveal_strlit("null");
    assert(p3 =~= seq![','] + key);
    let value = tip_text(tip) + p4;
    assert(file =~= head + key + value);
    before_tip_has_no_pair(ips, candidates, 'r');
    let at = head.len() as int;
    assert(first_infix_at(file, key, at)) by {
        assert(file.subrange(at, at + key.len()) =~= key);
        assert forall|i: int| 0 <= i < at implies #[trigger] file.subrange(i, i + key.len())
            != key by {
            let part = file.subrange(i, i + key.len());
            if part == key {
                assert(part[0] == '"' && part[1] == 'r');
                assert(file[i] == '"' && file[i + 1] == 'r');
                assert(head[i] == file[i]);
                if i + 1 < at {
                    assert(head[i + 1] == file[i + 1]);
                } else {
                    assert(head.last() == ',');
                }
            }
        }
    }
    let chosen = choose|at: int| first_infix_at(file, key, at);
    assert(chosen == at) by {
        if chosen < at {
            assert(file.subrange(chosen, chosen + key.len()) == key);
        }
        if at < chosen {
            assert(file.subrange(at, at + key.len()) == key);
        }
    }
    assert(file.skip(at + key.len()) =~= value);
    match tip {
        Some(round) => {
            let d = decimal(round as nat);
            decimal_digits(round as nat);
            assert(is_digit(d[0]));
            assert(value[0] == d[0]);
            assert(trim_front(value) == value);
            digits_then(d, p4);
            decimal_reads_back(round as nat, u32::MAX as nat);
        },
        None => {
            assert(value[0] == 'n');
            assert(trim_front(value) == value);
            assert(leading_digits(value) =~= Seq::<char>::empty());
        },
    }
}

/// A peer file that the daemon wrote is trusted just where it names a live peer; so an empty pool
/// never keeps a later one out, and a pool of eight is not given up for a smaller one.
pub proof fn written_pool_is_trusted(ips: Seq<Seq<char>>, candidates: nat, tip: Option<u32>)
    requires
        forall|i: int| 0 <= i < ips.len() ==> address_token(#[trigger] ips[i]),
        ips.no_duplicates(),
    ensures
        trusted_pool(peers_file(ips, candidates, tip)) <==> ips.len() > 0,
        forall|current: nat| #[trigger]
            keeps_previous(
                current,
                addresses(peers_file(ips, candidates, tip)).len(),
                trusted_pool(peers_file(ips, candidates, tip)),
            ) <==> ips.len() > 0 && (current == 0 || (current < 8 && ips.len() >= 8)),
{
    peers_file_reads_back(ips, candidates, tip);
    let file = peers_file(ips, candidates, tip);
    let head = before_tip(ips, candidates);
    let key = "\"round_tip\":"@;
    let p3 = ",\"round_tip\":"@;
    let p4 = ",\"candidate_fallback\":false}"@;
    let mark = "\"candidate_fallback\":true"@;
    reveal_strlit("\"round_tip\":");
    reveal_strlit(",\"round_tip\":");
    reveal_strlit(",\"candidate_fallback\":false}");
    reveal_strlit("\"candidate_fallback\":true");
    reveal_strlit("null");
    assert(p3 =~= seq![','] + key);
    let body = head + key + tip_text(tip);
    assert(file =~= body + p4);
    before_tip_has_no_pair(ips, candidates, 'c');
    assert(no_pair(key, 'c'));
    no_pair_concat(head, key, 'c');
    match tip {
        Some(round) => {
            digits_have_no_pair(round as nat, 'c');
            decimal_digits(round as nat);
        },
        None => {},
    }
    no_pair_concat(head + key, tip_text(tip), 'c');
    assert(body.last() == tip_text(tip).last());
    assert forall|i: int| 0 <= i && i + mark.len() <= file.len() implies #[trigger] file.subrange(
        i,
        i + mark.len(),
    ) != mark by {
        let part = file.subrange(i, i + mark.len());
        if part == mark {
            assert(part[0] == '"' && part[1] == 'c');
            assert(file[i] == '"' && file[i + 1] == 'c');
            let k = i - body.len();
            if k < 0 {
                assert(body[i] == file[i]);
                if k < -1 {
                    assert(body[i + 1] == file[i + 1]);
                }
            } else {
                assert(p4[k] == file[i] && p4[k + 1] == file[i + 1]);
                assert(k == 1);
                assert(part[21] == mark[21]);
                assert(file[i + 21] == p4[22]);
            }
        }
    }
}

/// A text that can stand on a line of the candidate file: not empty, without line breaks.
pub open spec fn line_text(s: Seq<char>) -> bool {
    &&& s.len() > 0
    &&& forall|i: int| 0 <= i < s.len() ==> #[trigger] s[i] != '\n' && s[i] != '\r'
}

/// Two texts with a line feed between them have the lines of the one and of the other.
proof fn lines_concat(a: Seq<char>, b: Seq<char>)
    requires
        a.len() > 0,
        a.last() != '\n',
        a.last() != '\r',
        line_text(b),
    ensures
        lines_of(a + seq!['\n'] + b) == lines_of(a).push(b),
    decreases a.len(),
{
    let s = a + seq!['\n'] + b;
    crate::text::first_at_is_first(a, '\n');
    let k = first_at(a, '\n');
    assert(a.last() == a[a.len() - 1]);
    if k < a.len() {
        first_at_unique(s, '\n', k);
        let rest = a.skip(k + 1);
        assert(s.take(k) =~= a.take(k));
        assert(s.skip(k + 1) =~= rest + seq!['\n'] + b);
        assert(rest.len() > 0);
        assert(rest.last() == a.last());
        lines_concat(rest, b);
        let first = without_cr(a.take(k));
        assert(seq![first] + lines_of(rest).push(b) =~= (seq![first] + lines_of(rest)).push(b));
    } else {
        first_at_unique(s, '\n', a.len() as int);
        assert(s.take(a.len() as int) =~= a);
        assert(s.skip(a.len() as int + 1) =~= b);
        first_at_unique(b, '\n', b.len() as int);
        assert(lines_of(b) =~= seq![b]);
        assert(lines_of(a) =~= seq![a]);
        assert(without_cr(a) == a);
        assert(seq![a] + seq![b] =~= seq![a].push(b));
    }
}

/// The daemon reads its candidates out of the candidate file as it wrote them.
pub proof fn candidates_file_reads_back(candidates: Seq<Seq<char>>)
    requires
        forall|i: int| 0 <= i < candidates.len() ==> line_text(#[trigger] candidates[i]),
    ensures
        lines_of(joined(candidates, "\n"@)) == candidates,
        candidates.len() > 0 ==> joined(candidates, "\n"@).len() > 0,
        candidates.len() > 0 ==> joined(candidates, "\n"@).last() == candidates.last().last(),
    decreases candidates.len(),
{
    reveal_strlit("\n");
    assert("\n"@ =~= seq!['\n']);
    if candidates.len() == 0 {
        assert(candidates =~= Seq::empty());
    } else {
        let last = candidates.last();
        assert(line_text(candidates[candidates.len() - 1]));
        assert(last[last.len() - 1] == last.last());
        if candidates.len() == 1 {
            first_at_unique(last, '\n', last.len() as int);
            assert(lines_of(last) =~= seq![last]);
            assert(candidates =~= seq![last]);
        } else {
            let before = candidates.drop_last();
            candidates_file_reads_back(before);
            let text = joined(before, "\n"@);
            let end = before.last();
            assert(line_text(candidates[candidates.len() - 2]));
            assert(end == candidates[candidates.len() - 2]);
            assert(end[end.len() - 1] == end.last());
            lines_concat(text, last);
            assert(before.push(last) =~= candidates);
            assert(joined(candidates, "\n"@).last() == last.last());
        }
    }
}

/// An address as it is written: four numbers with dots between them.
pub open spec fn dotted(a: nat, b: nat, c: nat, d: nat) -> Seq<char> {
    decimal(a) + seq!['.'] + (decimal(b) + seq!['.'] + (decimal(c) + seq!['.'] + decimal(d)))
}

/// A number of up to three digits has up to three.
proof fn short_number(n: nat)
    requires
        n < 1000,
    ensures
        0 < decimal(n).len() <= 3,
        forall|i: int| 0 <= i < decimal(n).len() ==> is_digit(#[trigger] decimal(n)[i]) && decimal(
            n,
        )[i] != '.',
{
    reveal_with_fuel(decimal, 4);
    decimal_digits(n);
    assert forall|i: int| 0 <= i < decimal(n).len() implies is_digit(#[trigger] decimal(n)[i])
        && decimal(n)[i] != '.' by {
        assert(is_digit(decimal(n)[i]));
    }
}

/// A text is split at its first dot.
proof fn split_at_first_dot(x: Seq<char>, rest: Seq<char>)
    requires
        forall|i: int| 0 <= i < x.len() ==> #[trigger] x[i] != '.',
    ensures
        split_on(x + seq!['.'] + rest, '.') == seq![x] + split_on(rest, '.'),
        split_on(x, '.') == seq![x],
{
    let s = x + seq!['.'] + rest;
    first_at_unique(s, '.', x.len() as int);
    assert(s.take(x.len() as int) =~= x);
    assert(s.skip(x.len() as int + 1) =~= rest);
    first_at_unique(x, '.', x.len() as int);
}

/// A text whose first part is `x` starts with `y` and a dot just where the two are the same, and
/// goes on with `z` where what is behind does.
proof fn prefix_of_dotted(x: Seq<char>, rest: Seq<char>, y: Seq<char>, z: Seq<char>)
    requires
        forall|i: int| 0 <= i < x.len() ==> #[trigger] x[i] != '.',
        forall|i: int| 0 <= i < y.len() ==> #[trigger] y[i] != '.',
    ensures
        has_prefix(x + seq!['.'] + rest, y + seq!['.'] + z) <==> x == y && has_prefix(rest, z),
{
    let s = x + seq!['.'] + rest;
    let p = y + seq!['.'] + z;
    if has_prefix(s, p) {
        assert forall|i: int| 0 <= i < p.len() implies #[trigger] s[i] == p[i] by {
            assert(s.take(p.len() as int)[i] == p[i]);
        }
        assert(p[y.len() as int] == '.');
        assert(s[x.len() as int] == '.');
        if x.len() < y.len() {
            assert(s[x.len() as int] == p[x.len() as int]);
            assert(p[x.len() as int] == y[x.len() as int]);
        }
        if y.len() < x.len() {
            assert(s[y.len() as int] == p[y.len() as int]);
            assert(s[y.len() as int] == x[y.len() as int]);
        }
        assert forall|i: int| 0 <= i < x.len() implies x[i] == y[i] by {
            assert(s[i] == p[i]);
        }
        assert(x =~= y);
        assert(rest.take(z.len() as int) =~= z) by {
            assert forall|i: int| 0 <= i < z.len() implies rest[i] == z[i] by {
                assert(s[x.len() + 1 + i] == p[x.len() + 1 + i]);
            }
        }
    }
    if x == y && has_prefix(rest, z) {
        assert forall|i: int| 0 <= i < p.len() implies s[i] == p[i] by {
            if i > x.len() {
                let j = i - x.len() - 1;
                assert(rest.take(z.len() as int)[j] == z[j]);
            }
        }
        assert(s.take(p.len() as int) =~= p);
    }
}

/// Two numbers are written alike just where they are the same.
proof fn decimal_tells_apart(a: nat, b: nat)
    requires
        a < 1000,
        b < 1000,
    ensures
        decimal(a) == decimal(b) <==> a == b,
{
    decimal_reads_back(a, 1000);
    decimal_reads_back(b, 1000);
}

/// Which of the written prefixes a dotted address has goes by its first number.
proof fn first_number_decides(a: nat, b: nat, c: nat, d: nat)
    requires
        a <= 255,
        b <= 255,
    ensures
        has_prefix(dotted(a, b, c, d), "0."@) <==> a == 0,
        has_prefix(dotted(a, b, c, d), "127."@) <==> a == 127,
        has_prefix(dotted(a, b, c, d), "10."@) <==> a == 10,
        has_prefix(dotted(a, b, c, d), "255."@) <==> a == 255,
        has_prefix(dotted(a, b, c, d), "172."@) <==> a == 172,
        has_prefix(dotted(a, b, c, d), "192.168."@) <==> a == 192 && b == 168,
        has_prefix(dotted(a, b, c, d), "169.254."@) <==> a == 169 && b == 254,
{
    reveal_with_fuel(decimal, 4);
    reveal_strlit("0.");
    reveal_strlit("127.");
    reveal_strlit("10.");
    reveal_strlit("255.");
    reveal_strlit("172.");
    reveal_strlit("192.168.");
    reveal_strlit("169.254.");
    let none = Seq::<char>::empty();
    let dot = seq!['.'];
    let last = decimal(c) + dot + decimal(d);
    let rest = decimal(b) + dot + last;
    assert(dotted(a, b, c, d) == decimal(a) + dot + rest);
    assert("0."@ =~= decimal(0) + dot + none);
    assert("127."@ =~= decimal(127) + dot + none);
    assert("10."@ =~= decimal(10) + dot + none);
    assert("255."@ =~= decimal(255) + dot + none);
    assert("172."@ =~= decimal(172) + dot + none);
    assert("192.168."@ =~= decimal(192) + dot + (decimal(168) + dot + none));
    assert("169.254."@ =~= decimal(169) + dot + (decimal(254) + dot + none));
    short_number(a);
    short_number(b);
    short_number(0);
    short_number(127);
    short_number(10);
    short_number(255);
    short_number(172);
    short_number(192);
    short_number(168);
    short_number(169);
    short_number(254);
    assert(rest.take(0) =~= none);
    assert(last.take(0) =~= none);
    prefix_of_dotted(decimal(a), rest, decimal(0), none);
    prefix_of_dotted(decimal(a), rest, decimal(127), none);
    prefix_of_dotted(decimal(a), rest, decimal(10), none);
    prefix_of_dotted(decimal(a), rest, decimal(255), none);
    prefix_of_dotted(decimal(a), rest, decimal(172), none);
    prefix_of_dotted(decimal(a), rest, decimal(192), decimal(168) + dot + none);
    prefix_of_dotted(decimal(a), rest, decimal(169), decimal(254) + dot + none);
    prefix_of_dotted(decimal(b), last, decimal(168), none);
    prefix_of_dotted(decimal(b), last, decimal(254), none);
    decimal_tells_apart(a, 0);
    decimal_tells_apart(a, 127);
    decimal_tells_apart(a, 10);
    decimal_tells_apart(a, 255);
    decimal_tells_apart(a, 172);
    decimal_tells_apart(a, 192);
    decimal_tells_apart(a, 169);
    decimal_tells_apart(b, 168);
    decimal_tells_apart(b, 254);
}

/// Every address of four numbers up to 255 is an IPv4 address. It can be dialled just where it is
/// none of 0.x, 10.x, 127.x and 255.x, nor 169.254.x, 192.168.x or 172.16.x to 172.31.x.
pub proof fn public_addresses_are_routable(a: nat, b: nat, c: nat, d: nat)
    requires
        a <= 255,
        b <= 255,
        c <= 255,
        d <= 255,
    ensures
        ipv4(dotted(a, b, c, d)),
        routable(dotted(a, b, c, d)) <==> a != 0 && a != 10 && a != 127 && a != 255 && !(a == 192 && b
            == 168) && !(a == 169 && b == 254) && !(a == 172 && 16 <= b <= 31),
{
    let s = dotted(a, b, c, d);
    let dot = seq!['.'];
    let last = decimal(c) + dot + decimal(d);
    let rest = decimal(b) + dot + last;
    short_number(a);
    short_number(b);
    short_number(c);
    short_number(d);
    split_at_first_dot(decimal(a), rest);
    split_at_first_dot(decimal(b), last);
    split_at_first_dot(decimal(c), decimal(d));
    split_at_first_dot(decimal(d), Seq::empty());
    let parts = split_on(s, '.');
    assert(parts =~= seq![decimal(a), decimal(b), decimal(c), decimal(d)]);
    decimal_reads_back(a, 255);
    decimal_reads_back(b, 255);
    decimal_reads_back(c, 255);
    decimal_reads_back(d, 255);
    first_number_decides(a, b, c, d);
    if a == 172 {
        reveal_with_fuel(decimal, 4);
        assert(decimal(172).len() == 3);
        assert(s.skip(4) =~= rest);
        assert(split_on(s.skip(4), '.')[0] == decimal(b));
    }
}

/// A row of digits and dots that ends inside a text is not changed by what follows the text.
proof fn run_ends_inside(a: Seq<char>, b: Seq<char>)
    requires
        a.len() > 0,
        !address_char(a.last()),
    ensures
        address_run(a + b) == address_run(a) < a.len(),
    decreases a.len(),
{
    if address_char(a[0]) {
        assert((a + b).skip(1) =~= a.skip(1) + b);
        assert(a.skip(1).last() == a.last());
        run_ends_inside(a.skip(1), b);
    }
}

/// The addresses of two texts, the first of which ends with something else, are those of the one
/// and of the other.
proof fn addresses_behind(a: Seq<char>, b: Seq<char>)
    requires
        a.len() == 0 || !address_char(a.last()),
    ensures
        addresses(a + b) == addresses(a) + addresses(b),
    decreases a.len(),
{
    let s = a + b;
    if a.len() == 0 {
        assert(s =~= b);
        assert(addresses(a) + addresses(b) =~= addresses(b));
    } else if is_digit(a[0]) {
        run_ends_inside(a, b);
        address_run_bounds(a);
        let k = address_run(a);
        assert(s.take(k) =~= a.take(k));
        assert(s.skip(k) =~= a.skip(k) + b);
        assert(a.skip(k).last() == a.last());
        addresses_behind(a.skip(k), b);
        let rest = addresses(a.skip(k));
        assert(seq![a.take(k)] + (rest + addresses(b)) =~= (seq![a.take(k)] + rest) + addresses(b));
    } else {
        assert(s.skip(1) =~= a.skip(1) + b);
        if a.len() > 1 {
            assert(a.skip(1).last() == a.last());
        }
        addresses_behind(a.skip(1), b);
    }
}

/// An address is found wherever it stands in a text, as long as no digit or dot touches it, in its
/// place between the others; and just where it can be dialled.
pub proof fn address_is_found_in_its_place(
    front: Seq<char>,
    a: nat,
    b: nat,
    c: nat,
    d: nat,
    rest: Seq<char>,
)
    requires
        a <= 255,
        b <= 255,
        c <= 255,
        d <= 255,
        front.len() == 0 || !address_char(front.last()),
        rest.len() == 0 || !address_char(rest[0]),
    ensures
        ({
            let ip = dotted(a, b, c, d);
            addresses(front + (ip + rest)) == addresses(front) + (if routable(ip) {
                seq![ip]
            } else {
                Seq::empty()
            }) + addresses(rest)
        }),
{
    let ip = dotted(a, b, c, d);
    let none = Seq::<Seq<char>>::empty();
    short_number(a);
    short_number(b);
    short_number(c);
    short_number(d);
    assert(is_digit(decimal(a)[0]));
    assert(ip[0] == decimal(a)[0]);
    dotted_is_address_chars(a, b, c, d);
    public_addresses_are_routable(a, b, c, d);
    token_then(ip, rest);
    addresses_behind(front, ip + rest);
    assert(addresses(front) + (seq![ip] + addresses(rest)) =~= addresses(front) + seq![ip]
        + addresses(rest));
    assert(addresses(front) + addresses(rest) =~= addresses(front) + none + addresses(rest));
}

proof fn dotted_is_address_chars(a: nat, b: nat, c: nat, d: nat)
    requires
        a <= 255,
        b <= 255,
        c <= 255,
        d <= 255,
    ensures
        forall|i: int|
            0 <= i < dotted(a, b, c, d).len() ==> address_char(#[trigger] dotted(a, b, c, d)[i]),
{
    let dot = seq!['.'];
    let last = decimal(c) + dot + decimal(d);
    let rest = decimal(b) + dot + last;
    short_number(a);
    short_number(b);
    short_number(c);
    short_number(d);
    assert forall|i: int| 0 <= i < last.len() implies address_char(#[trigger] last[i]) by {
        let n = decimal(c).len();
        if i < n {
            assert(last[i] == decimal(c)[i]);
        } else if i > n {
            assert(last[i] == decimal(d)[i - n - 1]);
        }
    }
    assert forall|i: int| 0 <= i < rest.len() implies address_char(#[trigger] rest[i]) by {
        let n = decimal(b).len();
        if i < n {
            assert(rest[i] == decimal(b)[i]);
        } else if i > n {
            assert(rest[i] == last[i - n - 1]);
        }
    }
    let s = dotted(a, b, c, d);
    assert forall|i: int| 0 <= i < s.len() implies address_char(#[trigger] s[i]) by {
        let n = decimal(a).len();
        if i < n {
            assert(s[i] == decimal(a)[i]);
        } else if i > n {
            assert(s[i] == rest[i - n - 1]);
        }
    }
}

} // verus!
