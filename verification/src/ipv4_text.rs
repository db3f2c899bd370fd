//! Reading and writing IPv4 addresses in dotted decimal notation.

use vstd::prelude::*;

use crate::addr::Ipv4Address;
use crate::text::{
    all_digits, decimal, decimal_value, digit, law_decimal_reads_back,
};

verus! {

/// The `i`-th octet of an address, the most significant first.
pub open spec fn octet(ip: Ipv4Address, i: int) -> nat {
    if i == 0 {
        (ip.bits / 0x100_0000) as nat
    } else if i == 1 {
        (ip.bits / 0x1_0000 % 0x100) as nat
    } else if i == 2 {
        (ip.bits / 0x100 % 0x100) as nat
    } else {
        (ip.bits % 0x100) as nat
    }
}

/// The octets of an address from the `i`-th on, in decimal digits, with a dot
/// between each two.
pub open spec fn octets_text(ip: Ipv4Address, i: int) -> Seq<char>
    decreases 3 - i,
{
    if i >= 3 {
        decimal(octet(ip, 3))
    } else {
        decimal(octet(ip, i)) + seq!['.'] + octets_text(ip, i + 1)
    }
}

/// An address in dotted decimal notation.
pub open spec fn ipv4_text(ip: Ipv4Address) -> Seq<char> {
    octets_text(ip, 0)
}

/// Digits without leading zeros are how the number they write is written.
proof fn lemma_digits_are_decimal(s: Seq<char>)
    requires
        s.len() > 0,
        all_digits(s),
        s.len() == 1 || s[0] != '0',
    ensures
        s == decimal(decimal_value(s)),
        s.len() > 1 ==> decimal_value(s) >= 10,
    decreases s.len(),
{
    let n = decimal_value(s);
    let d = (s.last() as nat - '0' as nat) as nat;
    assert('0' <= s[s.len() - 1] <= '9');
    assert(digit(d) == s.last());
    if s.len() == 1 {
        reveal_with_fuel(decimal_value, 2);
        assert(s.drop_last() =~= Seq::<char>::empty());
        assert(s =~= seq![s.last()]);
    } else {
        let head = s.drop_last();
        assert(all_digits(head)) by {
            assert forall|i: int| 0 <= i < head.len() implies '0' <= #[trigger] head[i] <= '9' by {
                assert(head[i] == s[i]);
            }
        }
        lemma_digits_are_decimal(head);
        if head.len() == 1 {
            reveal_with_fuel(decimal_value, 2);
            assert(head.drop_last() =~= Seq::<char>::empty());
            assert(head[0] == s[0] && '0' <= s[0] <= '9');
        }
        assert(decimal_value(head) >= 1);
        assert(n == 10 * decimal_value(head) + d);
        assert(n / 10 == decimal_value(head) && n % 10 == d);
        assert(decimal(n) == decimal(n / 10).push(digit(n % 10)));
        assert(s =~= head.push(s.last()));
    }
}

/// A number of at most three digits is below a thousand, and the other way round.
proof fn lemma_decimal_len(n: nat)
    ensures
        decimal(n).len() <= 3 <==> n < 1000,
{
    reveal_with_fuel(decimal, 5);
    if n >= 1000 {
        assert(decimal(n).len() == decimal(n / 10).len() + 1);
        assert(decimal(n / 10).len() == decimal(n / 100).len() + 1);
        assert(decimal(n / 100).len() == decimal(n / 1000).len() + 1);
        law_decimal_reads_back(n / 1000);
    }
}

/// The digits from `start` to `end`, and no further ones behind them, are how `v`
/// is written.
spec fn number_at(s: Seq<char>, start: int, end: int, v: nat) -> bool {
    &&& 0 <= start <= end <= s.len()
    &&& s.subrange(start, end) == decimal(v)
    &&& end < s.len() ==> !('0' <= s[end] <= '9')
}

/// Where digits end, and so which number they write, is determined by where they
/// begin.
proof fn lemma_number_at_unique(s: Seq<char>, start: int, e1: int, v1: nat, e2: int, v2: nat)
    requires
        number_at(s, start, e1, v1),
        number_at(s, start, e2, v2),
    ensures
        e1 == e2,
        v1 == v2,
{
    law_decimal_reads_back(v1);
    law_decimal_reads_back(v2);
    if e1 < e2 {
        assert(s.subrange(start, e2)[e1 - start] == s[e1]);
    }
    if e2 < e1 {
        assert(s.subrange(start, e1)[e2 - start] == s[e2]);
    }
}

/// Reads the number below 256 that begins at `start`, and where it ends.
fn read_octet(s: &str, start: usize) -> (r: Option<(u8, usize)>)
    requires
        start <= s@.len(),
    ensures
        match r {
            Some((v, end)) => number_at(s@, start as int, end as int, v as nat),
            None => forall|v: nat, end: int|
                v <= 255 ==> !#[trigger] number_at(s@, start as int, end, v),
        },
{
    let n: usize = s.unicode_len();
    let mut end: usize = start;
    let mut value: u32 = 0;
    assert(s@.subrange(start as int, start as int) =~= Seq::<char>::empty());
    while end < n && end - start < 4 && s.get_char(end) >= '0' && s.get_char(end) <= '9'
        invariant
            n == s@.len(),
            start <= end <= n,
            end - start <= 4,
            all_digits(s@.subrange(start as int, end as int)),
            value == decimal_value(s@.subrange(start as int, end as int)),
            end - start == 0 ==> value == 0,
            end - start == 1 ==> value < 10,
            end - start == 2 ==> value < 100,
            end - start == 3 ==> value < 1000,
            end - start == 4 ==> value < 10000,
        decreases n - end,
    {
        let ghost before = s@.subrange(start as int, end as int);
        let c: char = s.get_char(end);
        value = value * 10 + (c as u32 - '0' as u32);
        end += 1;
        proof {
            let now = s@.subrange(start as int, end as int);
            assert(now.drop_last() =~= before);
            assert(now.last() == c);
            assert forall|i: int| 0 <= i < now.len() implies '0' <= #[trigger] now[i] <= '9' by {
                if i < before.len() {
                    assert(now[i] == before[i]);
                }
            }
        }
    }
    let ghost digits = s@.subrange(start as int, end as int);
    proof {
        assert forall|v: nat, e: int| v <= 255 && #[trigger]
            number_at(s@, start as int, e, v) implies {
            &&& e == end
            &&& end - start <= 3
            &&& digits == decimal(v)
        } by {
            law_decimal_reads_back(v);
            lemma_decimal_len(v);
            let written = s@.subrange(start as int, e);
            if e < end {
                assert(digits[e - start] == s@[e]);
            }
            if end < e {
                assert(written[end - start] == s@[end as int]);
            }
        }
    }
    if end == start || end - start > 3 {
        proof {
            assert forall|v: nat, e: int| v <= 255 implies !#[trigger] number_at(
                s@,
                start as int,
                e,
                v,
            ) by {
                law_decimal_reads_back(v);
            }
        }
        return None;
    }
    if end - start > 1 && s.get_char(start) == '0' {
        proof {
            assert(digits[0] == '0');
            assert forall|v: nat, e: int| v <= 255 implies !#[trigger] number_at(
                s@,
                start as int,
                e,
                v,
            ) by {
                law_decimal_reads_back(v);
            }
        }
        return None;
    }
    if value > 255 {
        proof {
            assert forall|v: nat, e: int| v <= 255 implies !#[trigger] number_at(
                s@,
                start as int,
                e,
                v,
            ) by {
                law_decimal_reads_back(v);
            }
        }
        return None;
    }
    proof {
        assert(end - start > 1 ==> digits[0] == s@[start as int]);
        lemma_digits_are_decimal(digits);
    }
    Some((value as u8, end))
}

/// What follows an octet in the text of an address.
proof fn lemma_octets_text(s: Seq<char>, start: int, ip: Ipv4Address, i: int)
    requires
        0 <= start <= s.len(),
        0 <= i <= 3,
        s.skip(start) == octets_text(ip, i),
    ensures
        i == 3 ==> number_at(s, start, s.len() as int, octet(ip, 3)),
        i < 3 ==> {
            let end = start + decimal(octet(ip, i)).len();
            &&& number_at(s, start, end, octet(ip, i))
            &&& end < s.len()
            &&& s[end] == '.'
            &&& s.skip(end + 1) == octets_text(ip, i + 1)
        },
{
    let text = octets_text(ip, i);
    let digits = decimal(octet(ip, i));
    if i == 3 {
        assert(s.subrange(start, s.len() as int) =~= s.skip(start));
    } else {
        let end = start + digits.len();
        assert(text.len() > digits.len());
        assert forall|k: int| 0 <= k < text.len() implies s[start + k] == #[trigger] text[k] by {
            assert(s.skip(start)[k] == s[start + k]);
        }
        assert(s.subrange(start, end) =~= digits);
        assert(text[digits.len() as int] == '.');
        let rest = octets_text(ip, i + 1);
        assert forall|k: int| 0 <= k < rest.len() implies #[trigger] s.skip(end + 1)[k] == rest[k] by {
            assert(text[digits.len() + 1 + k] == rest[k]);
        }
        assert(s.skip(end + 1) =~= rest);
    }
}

/// An octet and what follows it are the text of an address from there on.
proof fn lemma_octets_text_joins(s: Seq<char>, start: int, end: int, ip: Ipv4Address, i: int)
    requires
        0 <= i <= 3,
        number_at(s, start, end, octet(ip, i)),
        i == 3 ==> end == s.len(),
        i < 3 ==> end < s.len() && s[end] == '.' && s.skip(end + 1) == octets_text(ip, i + 1),
    ensures
        s.skip(start) == octets_text(ip, i),
{
    if i == 3 {
        assert(s.skip(start) =~= s.subrange(start, end));
    } else {
        assert(s.skip(start) =~= s.subrange(start, end) + seq!['.'] + s.skip(end + 1));
    }
}

/// An address is made of its octets.
proof fn lemma_octets_make_address(ip: Ipv4Address)
    ensures
        ip.bits == 0x100_0000 * octet(ip, 0) + 0x1_0000 * octet(ip, 1) + 0x100 * octet(ip, 2)
            + octet(ip, 3),
{
}

/// The address with these octets.
#[verifier::spinoff_prover]
fn address_of_octets(a: u8, b: u8, c: u8, d: u8) -> (ip: Ipv4Address)
    ensures
        octet(ip, 0) == a,
        octet(ip, 1) == b,
        octet(ip, 2) == c,
        octet(ip, 3) == d,
{
    let bits: u32 = a as u32 * 0x100_0000 + b as u32 * 0x1_0000 + c as u32 * 0x100 + d as u32;
    assert(bits / 0x100_0000 == a && bits / 0x1_0000 % 0x100 == b && bits / 0x100 % 0x100 == c
        && bits % 0x100 == d) by (bit_vector)
        requires
            bits == a * 0x100_0000 + b * 0x1_0000 + c * 0x100 + d,
    ;
    Ipv4Address { bits }
}

/// Reads an address in dotted decimal notation: four numbers below 256, without
/// leading zeros, and nothing else.
#[verifier::spinoff_prover]
pub fn parse_ipv4(s: &str) -> (r: Option<Ipv4Address>)
    ensures
        match r {
            Some(ip) => s@ == ipv4_text(ip),
            None => forall|ip: Ipv4Address| s@ != #[trigger] ipv4_text(ip),
        },
{
    let n: usize = s.unicode_len();
    let mut values: Vec<u8> = Vec::new();
    let ghost mut ends: Seq<int> = seq![];
    let mut start: usize = 0;
    let mut i: usize = 0;
    assert(s@.skip(0) =~= s@);
    while i < 4
        invariant
            i <= 4,
            n == s@.len(),
            start <= n,
            values@.len() == i,
            ends.len() == i,
            i == 0 ==> start == 0,
            0 < i < 4 ==> start == ends[i - 1] + 1,
            i == 4 ==> ends[3] == n,
            forall|j: int|
                0 <= j < i ==> {
                    &&& number_at(
                        s@,
                        if j == 0 {
                            0
                        } else {
                            ends[j - 1] + 1
                        },
                        ends[j],
                        #[trigger] values@[j] as nat,
                    )
                    &&& j < 3 ==> ends[j] < n && s@[ends[j]] == '.'
                },
            forall|ip: Ipv4Address| #[trigger]
                ipv4_text(ip) == s@ ==> (i < 4 ==> s@.skip(start as int) == octets_text(
                    ip,
                    i as int,
                )),
        decreases 4 - i,
    {
        match read_octet(s, start) {
            None => {
                proof {
                    assert forall|ip: Ipv4Address| s@ != #[trigger] ipv4_text(ip) by {
                        if s@ == ipv4_text(ip) {
                            lemma_octets_text(s@, start as int, ip, i as int);
                        }
                    }
                }
                return None;
            },
            Some((v, end)) => {
                if i < 3 {
                    if end >= n || s.get_char(end) != '.' {
                        proof {
                            assert forall|ip: Ipv4Address| s@ != #[trigger] ipv4_text(ip) by {
                                if s@ == ipv4_text(ip) {
                                    lemma_octets_text(s@, start as int, ip, i as int);
                                    let e = start + decimal(octet(ip, i as int)).len();
                                    lemma_number_at_unique(
                                        s@,
                                        start as int,
                                        e,
                                        octet(ip, i as int),
                                        end as int,
                                        v as nat,
                                    );
                                }
                            }
                        }
                        return None;
                    }
                } else if end != n {
                    proof {
                        assert forall|ip: Ipv4Address| s@ != #[trigger] ipv4_text(ip) by {
                            if s@ == ipv4_text(ip) {
                                lemma_octets_text(s@, start as int, ip, 3);
                                lemma_number_at_unique(
                                    s@,
                                    start as int,
                                    s@.len() as int,
                                    octet(ip, 3),
                                    end as int,
                                    v as nat,
                                );
                            }
                        }
                    }
                    return None;
                }
                proof {
                    assert forall|ip: Ipv4Address| #[trigger] ipv4_text(ip) == s@ && i < 3 implies s@.skip(
                        end + 1,
                    ) == octets_text(ip, i + 1) by {
                        lemma_octets_text(s@, start as int, ip, i as int);
                        let e = start + decimal(octet(ip, i as int)).len();
                        lemma_number_at_unique(
                            s@,
                            start as int,
                            e,
                            octet(ip, i as int),
                            end as int,
                            v as nat,
                        );
                    }
                    ends = ends.push(end as int);
                }
                values.push(v);
                if i < 3 {
                    start = end + 1;
                }
                i += 1;
            },
        }
    }
    let ip = address_of_octets(values[0], values[1], values[2], values[3]);
    proof {
        assert(octet(ip, 3) == values@[3]);
        assert(octet(ip, 2) == values@[2]);
        assert(octet(ip, 1) == values@[1]);
        assert(octet(ip, 0) == values@[0]);
        lemma_octets_text_joins(s@, ends[2] + 1, ends[3], ip, 3);
        lemma_octets_text_joins(s@, ends[1] + 1, ends[2], ip, 2);
        lemma_octets_text_joins(s@, ends[0] + 1, ends[1], ip, 1);
        lemma_octets_text_joins(s@, 0, ends[0], ip, 0);
    }
    Some(ip)
}

/// No two addresses are written alike, so an address that is written and read is
/// the same again.
#[verifier::spinoff_prover]
pub proof fn law_ipv4_text_is_unambiguous(a: Ipv4Address, b: Ipv4Address)
    requires
        ipv4_text(a) == ipv4_text(b),
    ensures
        a == b,
{
    assert(octet(a, 0) == octet(b, 0) && octet(a, 1) == octet(b, 1) && octet(a, 2) == octet(b, 2)
        && octet(a, 3) == octet(b, 3)) by {
        assert(ipv4_text(a).skip(0) =~= ipv4_text(a));
        lemma_same_octets(ipv4_text(a), 0, a, b, 0);
    }
    lemma_octets_make_address(a);
    lemma_octets_make_address(b);
}

proof fn lemma_same_octets(s: Seq<char>, start: int, a: Ipv4Address, b: Ipv4Address, i: int)
    requires
        0 <= start <= s.len(),
        0 <= i <= 3,
        s.skip(start) == octets_text(a, i),
        s.skip(start) == octets_text(b, i),
    ensures
        forall|j: int| i <= j <= 3 ==> #[trigger] octet(a, j) == octet(b, j),
    decreases 3 - i,
{
    lemma_octets_text(s, start, a, i);
    lemma_octets_text(s, start, b, i);
    if i == 3 {
        lemma_number_at_unique(
            s,
            start,
            s.len() as int,
            octet(a, 3),
            s.len() as int,
            octet(b, 3),
        );
    } else {
        let e1 = start + decimal(octet(a, i)).len();
        let e2 = start + decimal(octet(b, i)).len();
        lemma_number_at_unique(s, start, e1, octet(a, i), e2, octet(b, i));
        lemma_same_octets(s, e1 + 1, a, b, i + 1);
    }
}

} // verus!
