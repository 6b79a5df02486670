//! IPv4 addresses in dotted-quad text.

use crate::decimal::{decimal, digit_char, is_digit, lemma_decimal_value};
use vstd::prelude::*;

verus! {

/// The text of one octet: its decimal numeral.
pub open spec fn octet_text(v: u8) -> Seq<char> {
    decimal(v as nat)
}

/// The dotted-quad text of an address: four decimal octets with a dot
/// between each two.
pub open spec fn ipv4_text(o: [u8; 4]) -> Seq<char> {
    octet_text(o[0]) + seq!['.'] + octet_text(o[1]) + seq!['.'] + octet_text(o[2]) + seq!['.']
        + octet_text(o[3])
}

/// The text is the dotted-quad text of some address.
pub open spec fn is_ipv4_text(text: Seq<char>) -> bool {
    exists|o: [u8; 4]| text == ipv4_text(o)
}

/// The address that a dotted-quad text stands for.
pub open spec fn address_of(text: Seq<char>) -> [u8; 4] {
    choose|o: [u8; 4]| text == ipv4_text(o)
}

/// At `pos` in `s` stands the octet `v`, ending before `next`, and no
/// digit follows it.
pub open spec fn octet_at(s: Seq<char>, pos: int, v: u8, next: int) -> bool {
    &&& 0 <= pos < next <= s.len()
    &&& s.subrange(pos, next) == octet_text(v)
    &&& next < s.len() ==> !is_digit(s[next])
}

/// The numeral of an octet written out by its length.
pub proof fn lemma_octet_text(v: u8)
    ensures
        v < 10 ==> octet_text(v) == seq![digit_char(v as nat)],
        10 <= v < 100 ==> octet_text(v) == seq![
            digit_char(v as nat / 10),
            digit_char(v as nat % 10),
        ],
        100 <= v ==> octet_text(v) == seq![
            digit_char(v as nat / 100),
            digit_char((v as nat / 10) % 10),
            digit_char(v as nat % 10),
        ],
{
    reveal_with_fuel(decimal, 3);
    let n = v as nat;
    if n < 10 {
    } else if n < 100 {
        assert(decimal(n) =~= seq![digit_char(n / 10), digit_char(n % 10)]);
    } else {
        assert(n / 10 / 10 == n / 100);
        assert(decimal(n) =~= seq![
            digit_char(n / 100),
            digit_char((n / 10) % 10),
            digit_char(n % 10),
        ]);
    }
}

/// At one place in a text stands at most one octet.
pub proof fn lemma_octet_at_unique(s: Seq<char>, pos: int, v: u8, next: int, w: u8, after: int)
    requires
        octet_at(s, pos, v, next),
        octet_at(s, pos, w, after),
    ensures
        v == w,
        next == after,
{
    lemma_decimal_value(v as nat);
    lemma_decimal_value(w as nat);
    let a = s.subrange(pos, next);
    let b = s.subrange(pos, after);
    if next < after {
        assert(b[next - pos] == s[next]);
        assert(is_digit(b[next - pos]));
    } else if after < next {
        assert(a[after - pos] == s[after]);
        assert(is_digit(a[after - pos]));
    }
    assert(a == b);
}

/// The octet whose text begins a tail of a dotted text stands there.
proof fn lemma_octet_at_front(s: Seq<char>, pos: int, v: u8, rest: Seq<char>)
    requires
        0 <= pos <= s.len(),
        s.skip(pos) == octet_text(v) + rest,
        rest.len() > 0 ==> rest[0] == '.',
    ensures
        octet_at(s, pos, v, pos + octet_text(v).len()),
        s.skip(pos + octet_text(v).len()) == rest,
{
    lemma_decimal_value(v as nat);
    let t = octet_text(v);
    let tail = s.skip(pos);
    let next = pos + t.len();
    assert(tail.len() == t.len() + rest.len());
    assert(s.subrange(pos, next) =~= t) by {
        assert forall|i: int| 0 <= i < t.len() implies s.subrange(pos, next)[i] == t[i] by {
            assert(tail[i] == s[pos + i]);
        }
    }
    if next < s.len() {
        assert(tail[t.len() as int] == rest[0]);
        assert(s[next] == '.');
    }
    assert(s.skip(next) =~= rest) by {
        assert forall|i: int| 0 <= i < rest.len() implies s.skip(next)[i] == rest[i] by {
            assert(tail[t.len() + i] == rest[i]);
        }
    }
}

/// Reads the octet that stands at `pos`, if one does.
fn parse_octet(text: &str, len: usize, pos: usize) -> (r: Option<(u8, usize)>)
    requires
        len == text@.len(),
        pos <= len,
    ensures
        r matches Some((v, next)) ==> octet_at(text@, pos as int, v, next as int),
        r is None ==> forall|v: u8, next: int| !octet_at(text@, pos as int, v, next),
{
    let ghost s = text@;
    if pos >= len {
        return None;
    }
    let c0 = text.get_char(pos);
    if !(c0 >= '0' && c0 <= '9') {
        proof {
            assert forall|v: u8, next: int| !octet_at(s, pos as int, v, next) by {
                if octet_at(s, pos as int, v, next) {
                    lemma_decimal_value(v as nat);
                    assert(s.subrange(pos as int, next)[0] == s[pos as int]);
                }
            }
        }
        return None;
    }
    let d0: u16 = (c0 as u8 - 0x30) as u16;
    let mut value: u16 = d0;
    let mut count: usize = 1;
    if pos + 1 < len {
        let c1 = text.get_char(pos + 1);
        if c1 >= '0' && c1 <= '9' {
            value = value * 10 + (c1 as u8 - 0x30) as u16;
            count = 2;
            if pos + 2 < len {
                let c2 = text.get_char(pos + 2);
                if c2 >= '0' && c2 <= '9' {
                    value = value * 10 + (c2 as u8 - 0x30) as u16;
                    count = 3;
                }
            }
        }
    }
    let next = pos + count;
    let more = next < len && {
        let c = text.get_char(next);
        c >= '0' && c <= '9'
    };
    let leading_zero = count > 1 && d0 == 0;
    if more || leading_zero || value > 255 {
        proof {
            assert forall|v: u8, end: int| !octet_at(s, pos as int, v, end) by {
                if octet_at(s, pos as int, v, end) {
                    lemma_decimal_value(v as nat);
                    lemma_octet_text(v);
                    let t = s.subrange(pos as int, end);
                    assert(forall|i: int| 0 <= i < t.len() ==> t[i] == s[pos + i]);
                    assert(t.len() <= 3);
                    if end < pos + count {
                        assert(is_digit(s[end]));
                    } else if end > pos + count {
                        assert(t[count as int] == s[pos + count]);
                        assert(is_digit(t[count as int]));
                    } else {
                        assert(t[0] == s[pos as int]);
                        if count >= 2 {
                            assert(t[1] == s[pos + 1]);
                        }
                        if count >= 3 {
                            assert(t[2] == s[pos + 2]);
                        }
                    }
                }
            }
        }
        return None;
    }
    let v: u8 = value as u8;
    proof {
        lemma_octet_text(v);
        let t = s.subrange(pos as int, next as int);
        assert(t[0] == s[pos as int]);
        if count >= 2 {
            assert(t[1] == s[pos + 1]);
        }
        if count >= 3 {
            assert(t[2] == s[pos + 2]);
        }
        assert(t =~= octet_text(v));
    }
    Some((v, next))
}

/// Reads a dotted-quad address. `Some` exactly for the texts that are the
/// dotted-quad text of an address, with that address; so no sign, space,
/// leading zero or octet over 255 is let through.
pub fn parse_ipv4(text: &str) -> (r: Option<[u8; 4]>)
    ensures
        r is Some <==> is_ipv4_text(text@),
        r matches Some(o) ==> text@ == ipv4_text(o) && o == address_of(text@),
{
    let ghost s = text@;
    let len = text.unicode_len();
    let mut octets: [u8; 4] = [0, 0, 0, 0];
    let mut pos: usize = 0;
    let mut i: usize = 0;
    while i < 4
        invariant
            len == s.len(),
            s == text@,
            i <= 4,
            pos <= len,
            i == 0 ==> pos == 0,
            i == 1 ==> s.take(pos as int) == octet_text(octets[0]) + seq!['.'],
            i == 2 ==> s.take(pos as int) == octet_text(octets[0]) + seq!['.'] + octet_text(
                octets[1],
            ) + seq!['.'],
            i == 3 ==> s.take(pos as int) == octet_text(octets[0]) + seq!['.'] + octet_text(
                octets[1],
            ) + seq!['.'] + octet_text(octets[2]) + seq!['.'],
            i == 4 ==> s == ipv4_text(octets),
            forall|o: [u8; 4]|
                s == ipv4_text(o) ==> (forall|j: int| 0 <= j < i ==> o[j] == octets[j]),
        decreases 4 - i,
    {
        let ghost before = octets;
        let ghost start = pos as int;
        proof {
            assert forall|o: [u8; 4]| s == ipv4_text(o) implies octet_at(
                s,
                start,
                o[i as int],
                start + octet_text(o[i as int]).len(),
            ) && (i < 3 ==> s.len() > start + octet_text(o[i as int]).len()) && (i == 3 ==> s.len()
                == start + octet_text(o[i as int]).len()) by {
                lemma_ipv4_tail(o, i as int);
                let front = ipv4_front(o, i as int);
                let rest = ipv4_rest(o, i as int + 1);
                assert(s.take(start) == front);
                assert(s.skip(start) =~= octet_text(o[i as int]) + rest) by {
                    assert(s =~= s.take(start) + s.skip(start));
                    lemma_same_front(s.take(start), s.skip(start), octet_text(o[i as int]) + rest);
                }
                lemma_octet_at_front(s, start, o[i as int], rest);
            }
        }
        let (v, next) = match parse_octet(text, len, pos) {
            Some(found) => found,
            None => {
                return None;
            },
        };
        proof {
            assert forall|o: [u8; 4]| s == ipv4_text(o) implies o[i as int] == v && next == start
                + octet_text(o[i as int]).len() by {
                lemma_octet_at_unique(
                    s,
                    start,
                    v,
                    next as int,
                    o[i as int],
                    start + octet_text(o[i as int]).len(),
                );
            }
        }
        octets[i] = v;
        if i < 3 {
            if next >= len {
                return None;
            }
            let c = text.get_char(next);
            if c != '.' {
                proof {
                    assert forall|o: [u8; 4]| s == ipv4_text(o) implies false by {
                        lemma_ipv4_tail(o, i as int);
                        let rest = ipv4_rest(o, i as int + 1);
                        assert(s.take(start) == ipv4_front(o, i as int));
                        assert(s =~= s.take(start) + s.skip(start));
                        lemma_same_front(
                            s.take(start),
                            s.skip(start),
                            octet_text(o[i as int]) + rest,
                        );
                        lemma_octet_at_front(s, start, o[i as int], rest);
                        assert(s.skip(next as int)[0] == s[next as int]);
                    }
                }
                return None;
            }
            pos = next + 1;
            proof {
                assert(s.take(pos as int) =~= s.take(start) + s.subrange(start, next as int)
                    + seq!['.']);
            }
        } else {
            if next != len {
                return None;
            }
            pos = next;
            proof {
                assert(s =~= s.take(start) + s.subrange(start, next as int));
            }
        }
        proof {
            assert(forall|j: int| 0 <= j < i ==> octets[j] == before[j]);
        }
        i += 1;
    }
    proof {
        lemma_ipv4_text_injective(octets, address_of(s));
    }
    Some(octets)
}

/// What of a dotted-quad text stands before octet `i`.
pub open spec fn ipv4_front(o: [u8; 4], i: int) -> Seq<char> {
    if i <= 0 {
        Seq::empty()
    } else if i == 1 {
        octet_text(o[0]) + seq!['.']
    } else if i == 2 {
        octet_text(o[0]) + seq!['.'] + octet_text(o[1]) + seq!['.']
    } else {
        octet_text(o[0]) + seq!['.'] + octet_text(o[1]) + seq!['.'] + octet_text(o[2]) + seq!['.']
    }
}

/// What of a dotted-quad text stands behind octet `i - 1`: empty behind the
/// last, else a dot and the octets from `i` on.
pub open spec fn ipv4_rest(o: [u8; 4], i: int) -> Seq<char> {
    if i >= 4 {
        Seq::empty()
    } else if i == 3 {
        seq!['.'] + octet_text(o[3])
    } else if i == 2 {
        seq!['.'] + octet_text(o[2]) + seq!['.'] + octet_text(o[3])
    } else {
        seq!['.'] + octet_text(o[1]) + seq!['.'] + octet_text(o[2]) + seq!['.'] + octet_text(o[3])
    }
}

/// A dotted-quad text falls into what stands before an octet, the octet,
/// and what stands behind it.
pub proof fn lemma_ipv4_tail(o: [u8; 4], i: int)
    requires
        0 <= i < 4,
    ensures
        ipv4_text(o) == ipv4_front(o, i) + (octet_text(o[i]) + ipv4_rest(o, i + 1)),
        ipv4_rest(o, i + 1).len() > 0 ==> ipv4_rest(o, i + 1)[0] == '.',
        i < 3 ==> ipv4_rest(o, i + 1).len() > 0,
        i == 3 ==> ipv4_rest(o, i + 1).len() == 0,
{
    assert(ipv4_text(o) =~= ipv4_front(o, i) + (octet_text(o[i]) + ipv4_rest(o, i + 1)));
}

/// In the dotted-quad text of an address, octet `i` stands behind what
/// stands before it.
pub proof fn lemma_ipv4_octet_at(o: [u8; 4], i: int)
    requires
        0 <= i < 4,
    ensures
        octet_at(
            ipv4_text(o),
            ipv4_front(o, i).len() as int,
            o[i],
            (ipv4_front(o, i).len() + octet_text(o[i]).len()) as int,
        ),
{
    let s = ipv4_text(o);
    let front = ipv4_front(o, i);
    let rest = ipv4_rest(o, i + 1);
    lemma_ipv4_tail(o, i);
    assert(s.skip(front.len() as int) =~= octet_text(o[i]) + rest);
    lemma_octet_at_front(s, front.len() as int, o[i], rest);
}

/// Two addresses with the same dotted-quad text are the same address.
pub proof fn lemma_ipv4_text_injective(o: [u8; 4], p: [u8; 4])
    requires
        ipv4_text(o) == ipv4_text(p),
    ensures
        o == p,
{
    let s = ipv4_text(o);
    lemma_ipv4_octet_at(o, 0);
    lemma_ipv4_octet_at(p, 0);
    lemma_octet_at_unique(
        s,
        0,
        o[0],
        octet_text(o[0]).len() as int,
        p[0],
        octet_text(p[0]).len() as int,
    );
    assert(ipv4_front(o, 1) == ipv4_front(p, 1));
    lemma_ipv4_octet_at(o, 1);
    lemma_ipv4_octet_at(p, 1);
    lemma_octet_at_unique(
        s,
        ipv4_front(o, 1).len() as int,
        o[1],
        (ipv4_front(o, 1).len() + octet_text(o[1]).len()) as int,
        p[1],
        (ipv4_front(p, 1).len() + octet_text(p[1]).len()) as int,
    );
    assert(ipv4_front(o, 2) == ipv4_front(p, 2));
    lemma_ipv4_octet_at(o, 2);
    lemma_ipv4_octet_at(p, 2);
    lemma_octet_at_unique(
        s,
        ipv4_front(o, 2).len() as int,
        o[2],
        (ipv4_front(o, 2).len() + octet_text(o[2]).len()) as int,
        p[2],
        (ipv4_front(p, 2).len() + octet_text(p[2]).len()) as int,
    );
    assert(ipv4_front(o, 3) == ipv4_front(p, 3));
    lemma_ipv4_octet_at(o, 3);
    lemma_ipv4_octet_at(p, 3);
    lemma_octet_at_unique(
        s,
        ipv4_front(o, 3).len() as int,
        o[3],
        (ipv4_front(o, 3).len() + octet_text(o[3]).len()) as int,
        p[3],
        (ipv4_front(p, 3).len() + octet_text(p[3]).len()) as int,
    );
    assert(o =~= p);
}

/// Two texts with the same front have the same tail.
pub proof fn lemma_same_front(front: Seq<char>, a: Seq<char>, b: Seq<char>)
    requires
        front + a == front + b,
    ensures
        a == b,
{
    assert(a =~= (front + a).skip(front.len() as int));
    assert(b =~= (front + b).skip(front.len() as int));
}

} // verus!
