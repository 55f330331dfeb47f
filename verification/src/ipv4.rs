//! Dotted-decimal IPv4 addresses: four octets written in decimal without leading
//! zeros, separated by dots (the text form that `std::net::Ipv4Addr` reads).

use vstd::prelude::*;

verus! {

/// An ASCII decimal digit.
pub open spec fn is_digit(c: char) -> bool {
    48 <= (c as u32) <= 57
}

/// The ASCII digit for `d < 10`.
pub open spec fn digit_char(d: nat) -> char {
    ((48 + d) as u32) as char
}

/// The decimal representation of `n`, without leading zeros.
pub open spec fn decimal(n: nat) -> Seq<char>
    decreases n,
{
    if n < 10 {
        seq![digit_char(n)]
    } else {
        decimal(n / 10).push(digit_char(n % 10))
    }
}

/// The number written by a string of decimal digits.
pub open spec fn digits_value(w: Seq<char>) -> nat
    decreases w.len(),
{
    if w.len() == 0 {
        0
    } else {
        10 * digits_value(w.drop_last()) + ((w.last() as u32) - 48) as nat
    }
}

/// The dotted-decimal text of the address `v` (most significant octet first).
pub open spec fn ipv4_text(v: u32) -> Seq<char> {
    decimal((v / 0x100_0000) as nat) + seq!['.'] + decimal(((v / 0x1_0000) % 256) as nat) + seq!['.']
        + decimal(((v / 256) % 256) as nat) + seq!['.'] + decimal((v % 256) as nat)
}

/// The address whose dotted-decimal text is `s`, if there is one.
pub open spec fn ipv4_parse(s: Seq<char>) -> Option<u32> {
    if exists|v: u32| ipv4_text(v) == s {
        Some(choose|v: u32| ipv4_text(v) == s)
    } else {
        None
    }
}

/// `s` holds the decimal text of `n` at `pos`, not followed by another digit.
pub open spec fn number_at(s: Seq<char>, pos: nat, n: nat) -> bool {
    let d = decimal(n);
    &&& pos + d.len() <= s.len()
    &&& s.subrange(pos as int, (pos + d.len()) as int) == d
    &&& (pos + d.len() == s.len() || !is_digit(s[(pos + d.len()) as int]))
}

proof fn lemma_digit_char(d: nat)
    requires
        d < 10,
    ensures
        (digit_char(d) as u32) == 48 + d,
        is_digit(digit_char(d)),
{
    let u = (48 + d) as u32;
    assert(u == 48 + d);
    assert((u as char) as u32 == u);
}

proof fn lemma_digit_of_char(c: char)
    requires
        is_digit(c),
    ensures
        digit_char(((c as u32) - 48) as nat) == c,
{
    broadcast use vstd::utf8::char_u32_cast;
    let u = c as u32;
    assert(((48 + ((u - 48) as nat)) as u32) == u);
}

proof fn lemma_decimal_long(n: nat)
    requires
        n >= 10,
    ensures
        decimal(n).len() >= 2,
    decreases n,
{
    if n / 10 >= 10 {
        lemma_decimal_long(n / 10);
    } else {
        assert(decimal(n / 10).len() == 1);
    }
}

proof fn lemma_decimal(n: nat)
    ensures
        decimal(n).len() >= 1,
        forall|i: int| 0 <= i < decimal(n).len() ==> is_digit(#[trigger] decimal(n)[i]),
        decimal(n).len() > 1 ==> (decimal(n)[0] as u32) != 48,
        digits_value(decimal(n)) == n,
        n < 1000 ==> decimal(n).len() <= 3,
        n < 100 ==> decimal(n).len() <= 2,
        n < 10 ==> decimal(n).len() == 1,
        !decimal(n).contains('.'),
    decreases n,
{
    lemma_digit_char(n % 10);
    if n >= 10 {
        lemma_decimal(n / 10);
        let d = decimal(n);
        let p = decimal(n / 10);
        assert(d.drop_last() =~= p);
        assert(d.last() == digit_char(n % 10));
        assert(digits_value(d) == 10 * (n / 10) + n % 10);
        assert forall|i: int| 0 <= i < d.len() implies is_digit(#[trigger] d[i]) by {
            if i < p.len() {
                assert(d[i] == p[i]);
            }
        }
        if p.len() > 1 {
            assert(d[0] == p[0]);
        } else {
            assert(d[0] == p[0]);
            assert(n / 10 >= 1);
            if n / 10 >= 10 {
                lemma_decimal_long(n / 10);
            }
            lemma_digit_char(n / 10);
        }
        if d.contains('.') {
            let i = choose|i: int| 0 <= i < d.len() && d[i] == '.';
            if i < p.len() {
                assert(d[i] == p[i]);
            }
        }
    } else {
        let d = decimal(n);
        assert(d.drop_last() =~= Seq::<char>::empty());
        assert(digits_value(Seq::<char>::empty()) == 0);
        assert(digits_value(d) == n);
    }
}

proof fn lemma_digits_positive(w: Seq<char>)
    requires
        w.len() >= 1,
        forall|i: int| 0 <= i < w.len() ==> is_digit(#[trigger] w[i]),
        (w[0] as u32) != 48,
    ensures
        digits_value(w) >= 1,
    decreases w.len(),
{
    if w.len() > 1 {
        let p = w.drop_last();
        assert(p[0] == w[0]);
        assert forall|i: int| 0 <= i < p.len() implies is_digit(#[trigger] p[i]) by {
            assert(p[i] == w[i]);
        }
        lemma_digits_positive(p);
    } else {
        assert(w.drop_last() =~= Seq::<char>::empty());
        assert((w[0] as u32) != 48);
    }
}

proof fn lemma_canonical_decimal(w: Seq<char>)
    requires
        w.len() >= 1,
        forall|i: int| 0 <= i < w.len() ==> is_digit(#[trigger] w[i]),
        w.len() > 1 ==> (w[0] as u32) != 48,
    ensures
        decimal(digits_value(w)) == w,
    decreases w.len(),
{
    let p = w.drop_last();
    let d = ((w.last() as u32) - 48) as nat;
    assert(is_digit(w[w.len() - 1]));
    lemma_digit_of_char(w.last());
    lemma_digit_char(d);
    assert(digit_char(d) == w.last());
    if w.len() == 1 {
        assert(p =~= Seq::<char>::empty());
        assert(digits_value(Seq::<char>::empty()) == 0);
        assert(digits_value(w) == d);
        assert(decimal(d) =~= w);
    } else {
        assert forall|i: int| 0 <= i < p.len() implies is_digit(#[trigger] p[i]) by {
            assert(p[i] == w[i]);
        }
        assert(p[0] == w[0]);
        lemma_canonical_decimal(p);
        lemma_digits_positive(p);
        let v = digits_value(w);
        assert(v == 10 * digits_value(p) + d);
        assert(v / 10 == digits_value(p));
        assert(v % 10 == d);
        assert(decimal(v) =~= decimal(digits_value(p)).push(digit_char(d)));
        assert(w =~= p.push(w.last()));
    }
}

proof fn lemma_decimal_injective(a: nat, b: nat)
    requires
        decimal(a) == decimal(b),
    ensures
        a == b,
{
    lemma_decimal(a);
    lemma_decimal(b);
}

/// Two numbers written at the same position are the same number.
proof fn lemma_number_at_unique(s: Seq<char>, pos: nat, a: nat, b: nat)
    requires
        number_at(s, pos, a),
        number_at(s, pos, b),
    ensures
        a == b,
{
    lemma_decimal(a);
    lemma_decimal(b);
    let da = decimal(a);
    let db = decimal(b);
    if da.len() < db.len() {
        assert(s[(pos + da.len()) as int] == s.subrange(pos as int, (pos + db.len()) as int)[da.len() as int]);
        assert(is_digit(db[da.len() as int]));
    } else if db.len() < da.len() {
        assert(s[(pos + db.len()) as int] == s.subrange(pos as int, (pos + da.len()) as int)[db.len() as int]);
        assert(is_digit(da[db.len() as int]));
    } else {
        lemma_decimal_injective(a, b);
    }
}

proof fn lemma_octets(v: u32)
    ensures
        v == (v / 0x100_0000) * 0x100_0000 + ((v / 0x1_0000) % 256) * 0x1_0000 + ((v / 256) % 256) * 256 + v
            % 256,
        v / 0x100_0000 < 256,
{
    assert(v == (v / 0x100_0000) * 0x100_0000 + ((v / 0x1_0000) % 256) * 0x1_0000 + ((v / 256) % 256) * 256
        + v % 256) by (bit_vector);
    assert(v / 0x100_0000 < 256) by (bit_vector);
}

proof fn lemma_from_octets(a: u32, b: u32, c: u32, d: u32)
    requires
        a < 256,
        b < 256,
        c < 256,
        d < 256,
    ensures
        ({
            let v = (a * 0x100_0000 + b * 0x1_0000 + c * 256 + d) as u32;
            &&& v == a * 0x100_0000 + b * 0x1_0000 + c * 256 + d
            &&& v / 0x100_0000 == a
            &&& (v / 0x1_0000) % 256 == b
            &&& (v / 256) % 256 == c
            &&& v % 256 == d
        }),
{
    assert(({
        let v = (a * 0x100_0000 + b * 0x1_0000 + c * 256 + d) as u32;
        &&& v == a * 0x100_0000 + b * 0x1_0000 + c * 256 + d
        &&& v / 0x100_0000 == a
        &&& (v / 0x1_0000) % 256 == b
        &&& (v / 256) % 256 == c
        &&& v % 256 == d
    })) by (bit_vector)
        requires
            a < 256,
            b < 256,
            c < 256,
            d < 256,
    ;
}

/// The address is determined by its text.
pub proof fn lemma_ipv4_text_injective(v: u32, w: u32)
    requires
        ipv4_text(v) == ipv4_text(w),
    ensures
        v == w,
{
    let s = ipv4_text(v);
    lemma_ipv4_text_shape(v);
    lemma_ipv4_text_shape(w);
    let (p1, p2, p3) = ipv4_dots(v);
    let (q1, q2, q3) = ipv4_dots(w);
    lemma_number_at_unique(s, 0, (v / 0x100_0000) as nat, (w / 0x100_0000) as nat);
    assert(p1 == q1);
    lemma_number_at_unique(s, p1 + 1, ((v / 0x1_0000) % 256) as nat, ((w / 0x1_0000) % 256) as nat);
    assert(p2 == q2);
    lemma_number_at_unique(s, p2 + 1, ((v / 256) % 256) as nat, ((w / 256) % 256) as nat);
    assert(p3 == q3);
    lemma_number_at_unique(s, p3 + 1, (v % 256) as nat, (w % 256) as nat);
    lemma_octets(v);
    lemma_octets(w);
}

/// The positions of the three dots in the text of `v`.
pub open spec fn ipv4_dots(v: u32) -> (nat, nat, nat) {
    let p1 = decimal((v / 0x100_0000) as nat).len();
    let p2 = p1 + 1 + decimal(((v / 0x1_0000) % 256) as nat).len();
    let p3 = p2 + 1 + decimal(((v / 256) % 256) as nat).len();
    (p1, p2, p3)
}

proof fn lemma_ipv4_text_shape(v: u32)
    ensures
        ({
            let s = ipv4_text(v);
            let (p1, p2, p3) = ipv4_dots(v);
            &&& s[p1 as int] == '.' && s[p2 as int] == '.' && s[p3 as int] == '.'
            &&& number_at(s, 0, (v / 0x100_0000) as nat)
            &&& number_at(s, p1 + 1, ((v / 0x1_0000) % 256) as nat)
            &&& number_at(s, p2 + 1, ((v / 256) % 256) as nat)
            &&& number_at(s, p3 + 1, (v % 256) as nat)
            &&& p3 + 1 + decimal((v % 256) as nat).len() == s.len()
        }),
{
    let d1 = decimal((v / 0x100_0000) as nat);
    let d2 = decimal(((v / 0x1_0000) % 256) as nat);
    let d3 = decimal(((v / 256) % 256) as nat);
    let d4 = decimal((v % 256) as nat);
    lemma_decimal((v / 0x100_0000) as nat);
    lemma_decimal(((v / 0x1_0000) % 256) as nat);
    lemma_decimal(((v / 256) % 256) as nat);
    lemma_decimal((v % 256) as nat);
    let s = ipv4_text(v);
    let (p1, p2, p3) = ipv4_dots(v);
    assert(s =~= d1 + seq!['.'] + d2 + seq!['.'] + d3 + seq!['.'] + d4);
    assert(s[p1 as int] == '.');
    assert(s[p2 as int] == '.');
    assert(s[p3 as int] == '.');
    assert(s.subrange(0, d1.len() as int) =~= d1);
    assert(s.subrange((p1 + 1) as int, (p1 + 1 + d2.len()) as int) =~= d2);
    assert(s.subrange((p2 + 1) as int, (p2 + 1 + d3.len()) as int) =~= d3);
    assert(s.subrange((p3 + 1) as int, (p3 + 1 + d4.len()) as int) =~= d4);
    assert(!is_digit('.'));
}

/// A maximal run of digits that holds a number's text is exactly that text.
proof fn lemma_run_is_number(s: Seq<char>, pos: nat, j: nat, n: nat)
    requires
        pos <= j <= s.len(),
        forall|i: int| pos <= i < j ==> is_digit(#[trigger] s[i]),
        j == s.len() || !is_digit(s[j as int]),
        number_at(s, pos, n),
    ensures
        j == pos + decimal(n).len(),
        s.subrange(pos as int, j as int) == decimal(n),
{
    let d = decimal(n);
    lemma_decimal(n);
    if j < pos + d.len() {
        assert(s[j as int] == s.subrange(pos as int, (pos + d.len()) as int)[j - pos]);
        assert(is_digit(d[j - pos]));
    } else if j > pos + d.len() {
        assert(is_digit(s[(pos + d.len()) as int]));
    }
}

/// `c` is an ASCII decimal digit.
fn is_digit_exec(c: char) -> (r: bool)
    ensures
        r == is_digit(c),
{
    let u = c as u32;
    48 <= u && u <= 57
}

/// Reads an octet (0 to 255, decimal, no leading zero) that starts at `pos` and
/// is not followed by another digit.
fn parse_octet(s: &[char], pos: usize) -> (r: Option<(u32, usize)>)
    requires
        pos <= s@.len(),
    ensures
        r matches Some((n, e)) ==> n < 256 && number_at(s@, pos as nat, n as nat) && e == pos + decimal(
            n as nat,
        ).len(),
        r is None ==> forall|n: nat| n < 256 ==> !#[trigger] number_at(s@, pos as nat, n),
{
    let mut j = pos;
    while j < s.len() && is_digit_exec(s[j])
        invariant
            pos <= j <= s@.len(),
            forall|i: int| pos <= i < j ==> is_digit(#[trigger] s@[i]),
        decreases s@.len() - j,
    {
        j = j + 1;
    }
    let len = j - pos;
    if len == 0 || len > 3 || (len > 1 && (s[pos] as u32) == 48) {
        proof {
            assert forall|n: nat| n < 256 implies !#[trigger] number_at(s@, pos as nat, n) by {
                if number_at(s@, pos as nat, n) {
                    lemma_run_is_number(s@, pos as nat, j as nat, n);
                    lemma_decimal(n);
                    assert(s@[pos as int] == decimal(n)[0]);
                }
            }
        }
        return None;
    }
    let mut v: u32 = 0;
    let mut k = pos;
    assert(s@.subrange(pos as int, pos as int) =~= Seq::<char>::empty());
    while k < j
        invariant
            pos <= k <= j,
            j - pos <= 3,
            j <= s@.len(),
            forall|i: int| pos <= i < j ==> is_digit(#[trigger] s@[i]),
            v == digits_value(s@.subrange(pos as int, k as int)),
            k - pos == 0 ==> v < 1,
            k - pos == 1 ==> v < 10,
            k - pos == 2 ==> v < 100,
            k - pos == 3 ==> v < 1000,
        decreases j - k,
    {
        assert(is_digit(s@[k as int]));
        assert(s@.subrange(pos as int, k + 1).drop_last() =~= s@.subrange(pos as int, k as int));
        v = v * 10 + ((s[k] as u32) - 48);
        k = k + 1;
    }
    let w = Ghost(s@.subrange(pos as int, j as int));
    assert forall|i: int| 0 <= i < w@.len() implies is_digit(#[trigger] w@[i]) by {
        assert(w@[i] == s@[pos + i]);
    }
    if v > 255 {
        proof {
            assert forall|n: nat| n < 256 implies !#[trigger] number_at(s@, pos as nat, n) by {
                if number_at(s@, pos as nat, n) {
                    lemma_run_is_number(s@, pos as nat, j as nat, n);
                    lemma_decimal(n);
                }
            }
        }
        return None;
    }
    proof {
        assert(w@.len() > 1 ==> w@[0] == s@[pos as int]);
        lemma_canonical_decimal(w@);
    }
    Some((v, j))
}

/// Reads a whole string as a dotted-decimal IPv4 address.
pub fn parse_ipv4(s: &[char]) -> (r: Option<u32>)
    ensures
        r == ipv4_parse(s@),
{
    let n = s.len();
    let ghost t = s@;
    let (a, p1) = match parse_octet(s, 0) {
        Some(x) => x,
        None => {
            proof {
                if exists|v: u32| ipv4_text(v) == t {
                    let v = choose|v: u32| ipv4_text(v) == t;
                    lemma_ipv4_text_shape(v);
                    lemma_octets(v);
                    assert(number_at(t, 0, (v / 0x100_0000) as nat));
                }
            }
            return None;
        },
    };
    if p1 >= n || s[p1] != '.' {
        proof {
            if exists|v: u32| ipv4_text(v) == t {
                let v = choose|v: u32| ipv4_text(v) == t;
                lemma_ipv4_text_shape(v);
                lemma_number_at_unique(t, 0, a as nat, (v / 0x100_0000) as nat);
            }
        }
        return None;
    }
    let (b, p2) = match parse_octet(s, p1 + 1) {
        Some(x) => x,
        None => {
            proof {
                if exists|v: u32| ipv4_text(v) == t {
                    let v = choose|v: u32| ipv4_text(v) == t;
                    lemma_ipv4_text_shape(v);
                    lemma_number_at_unique(t, 0, a as nat, (v / 0x100_0000) as nat);
                    assert(((v / 0x1_0000) % 256) < 256);
                    assert(number_at(t, (p1 + 1) as nat, ((v / 0x1_0000) % 256) as nat));
                }
            }
            return None;
        },
    };
    if p2 >= n || s[p2] != '.' {
        proof {
            if exists|v: u32| ipv4_text(v) == t {
                let v = choose|v: u32| ipv4_text(v) == t;
                lemma_ipv4_text_shape(v);
                lemma_number_at_unique(t, 0, a as nat, (v / 0x100_0000) as nat);
                lemma_number_at_unique(t, (p1 + 1) as nat, b as nat, ((v / 0x1_0000) % 256) as nat);
            }
        }
        return None;
    }
    let (c, p3) = match parse_octet(s, p2 + 1) {
        Some(x) => x,
        None => {
            proof {
                if exists|v: u32| ipv4_text(v) == t {
                    let v = choose|v: u32| ipv4_text(v) == t;
                    lemma_ipv4_text_shape(v);
                    lemma_number_at_unique(t, 0, a as nat, (v / 0x100_0000) as nat);
                    lemma_number_at_unique(t, (p1 + 1) as nat, b as nat, ((v / 0x1_0000) % 256) as nat);
                    assert(number_at(t, (p2 + 1) as nat, ((v / 256) % 256) as nat));
                }
            }
            return None;
        },
    };
    if p3 >= n || s[p3] != '.' {
        proof {
            if exists|v: u32| ipv4_text(v) == t {
                let v = choose|v: u32| ipv4_text(v) == t;
                lemma_ipv4_text_shape(v);
                lemma_number_at_unique(t, 0, a as nat, (v / 0x100_0000) as nat);
                lemma_number_at_unique(t, (p1 + 1) as nat, b as nat, ((v / 0x1_0000) % 256) as nat);
                lemma_number_at_unique(t, (p2 + 1) as nat, c as nat, ((v / 256) % 256) as nat);
            }
        }
        return None;
    }
    let (d, p4) = match parse_octet(s, p3 + 1) {
        Some(x) => x,
        None => {
            proof {
                if exists|v: u32| ipv4_text(v) == t {
                    let v = choose|v: u32| ipv4_text(v) == t;
                    lemma_ipv4_text_shape(v);
                    lemma_number_at_unique(t, 0, a as nat, (v / 0x100_0000) as nat);
                    lemma_number_at_unique(t, (p1 + 1) as nat, b as nat, ((v / 0x1_0000) % 256) as nat);
                    lemma_number_at_unique(t, (p2 + 1) as nat, c as nat, ((v / 256) % 256) as nat);
                    assert(number_at(t, (p3 + 1) as nat, (v % 256) as nat));
                }
            }
            return None;
        },
    };
    if p4 != n {
        proof {
            if exists|v: u32| ipv4_text(v) == t {
                let v = choose|v: u32| ipv4_text(v) == t;
                lemma_ipv4_text_shape(v);
                lemma_number_at_unique(t, 0, a as nat, (v / 0x100_0000) as nat);
                lemma_number_at_unique(t, (p1 + 1) as nat, b as nat, ((v / 0x1_0000) % 256) as nat);
                lemma_number_at_unique(t, (p2 + 1) as nat, c as nat, ((v / 256) % 256) as nat);
                lemma_number_at_unique(t, (p3 + 1) as nat, d as nat, (v % 256) as nat);
            }
        }
        return None;
    }
    proof {
        lemma_from_octets(a, b, c, d);
    }
    let v: u32 = a * 0x100_0000 + b * 0x1_0000 + c * 256 + d;
    proof {
        let da = decimal(a as nat);
        let db = decimal(b as nat);
        let dc = decimal(c as nat);
        let dd = decimal(d as nat);
        assert(t.subrange(0, p1 as int) == da);
        assert(t =~= da + seq!['.'] + db + seq!['.'] + dc + seq!['.'] + dd) by {
            assert(t =~= t.subrange(0, p1 as int) + seq![t[p1 as int]] + t.subrange(p1 + 1, p2 as int) + seq![t[p2 as int]]
                + t.subrange(p2 + 1, p3 as int) + seq![t[p3 as int]] + t.subrange(p3 + 1, p4 as int));
        }
        assert(ipv4_text(v) =~= t);
        let w = choose|w: u32| ipv4_text(w) == t;
        lemma_ipv4_text_injective(v, w);
    }
    Some(v)
}

} // verus!
