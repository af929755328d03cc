use vstd::prelude::*;
use base64::Engine;
use vstd::utf8::*;
use vstd::string::*;
use crate::descriptor::{Blur, CachedImage, CachedImageOption, DescriptorModel, Resize};

verus! {

/// Bytes that stand for themselves in a query value.
pub open spec fn is_unreserved(b: u8) -> bool {
    (65 <= b <= 90) || (97 <= b <= 122) || (48 <= b <= 57) || b == 45 || b == 46 || b == 95
        || b == 126
}

pub open spec fn hex_digit(n: u8) -> u8 {
    if n < 10 {
        (48 + n) as u8
    } else {
        (55 + n) as u8
    }
}

/// One byte of a query value: itself, or `%` and two upper-case hex digits.
pub open spec fn pct_byte(b: u8) -> Seq<u8> {
    if is_unreserved(b) {
        seq![b]
    } else {
        seq![37u8, hex_digit(b / 16), hex_digit(b % 16)]
    }
}

/// Percent-encoding of a byte string.
pub open spec fn pct_encode(s: Seq<u8>) -> Seq<u8>
    decreases s.len(),
{
    if s.len() == 0 {
        seq![]
    } else {
        pct_encode(s.drop_last()) + pct_byte(s.last())
    }
}

/// Decimal digits of a number, without leading zeros.
pub open spec fn decimal(n: nat) -> Seq<u8>
    decreases n,
{
    if n < 10 {
        seq![(48 + n) as u8]
    } else {
        decimal(n / 10).push((48 + n % 10) as u8)
    }
}

/// `&option[<kind>][<field>]=`
pub open spec fn field_key(kind: u8, field: Seq<u8>) -> Seq<u8> {
    seq![38u8, 111, 112, 116, 105, 111, 110, 91, kind, 93, 91] + field + seq![93u8, 61]
}

pub open spec fn key_src() -> Seq<u8> {
    seq![115u8, 114, 99, 61]
}

pub open spec fn kind_resize() -> u8 {
    114
}

pub open spec fn kind_blur() -> u8 {
    98
}

pub open spec fn name_w() -> Seq<u8> {
    seq![119u8]
}

pub open spec fn name_h() -> Seq<u8> {
    seq![104u8]
}

pub open spec fn name_q() -> Seq<u8> {
    seq![113u8]
}

pub open spec fn name_sw() -> Seq<u8> {
    seq![115u8, 119]
}

pub open spec fn name_sh() -> Seq<u8> {
    seq![115u8, 104]
}

pub open spec fn name_s() -> Seq<u8> {
    seq![115u8]
}

/// One `key=value` field with a number, followed by what comes after it.
pub open spec fn num_field(kind: u8, name: Seq<u8>, n: nat, rest: Seq<u8>) -> Seq<u8> {
    field_key(kind, name) + (decimal(n) + rest)
}

/// The fields of an option, in their fixed order.
pub open spec fn option_query(o: CachedImageOption) -> Seq<u8> {
    match o {
        CachedImageOption::Resize(r) => num_field(
            kind_resize(),
            name_w(),
            r.width as nat,
            num_field(
                kind_resize(),
                name_h(),
                r.height as nat,
                num_field(kind_resize(), name_q(), r.quality as nat, seq![]),
            ),
        ),
        CachedImageOption::Blur(b) => num_field(
            kind_blur(),
            name_w(),
            b.width as nat,
            num_field(
                kind_blur(),
                name_h(),
                b.height as nat,
                num_field(
                    kind_blur(),
                    name_sw(),
                    b.svg_width as nat,
                    num_field(
                        kind_blur(),
                        name_sh(),
                        b.svg_height as nat,
                        num_field(kind_blur(), name_s(), b.sigma as nat, seq![]),
                    ),
                ),
            ),
        ),
    }
}

/// The canonical query encoding of a descriptor, as bytes:
/// `src=<percent-encoded UTF-8 source>&option[r][w]=..&option[r][h]=..&option[r][q]=..`
/// for a resize, and the fields `w`, `h`, `sw`, `sh`, `s` under `b` for a blur.
pub open spec fn query_bytes(d: DescriptorModel) -> Seq<u8> {
    key_src() + (pct_encode(encode_utf8(d.0)) + option_query(d.1))
}

fn hex_digit_exec(n: u8) -> (r: u8)
    requires
        n < 16,
    ensures
        r == hex_digit(n),
{
    if n < 10 {
        48 + n
    } else {
        55 + n
    }
}

fn unreserved(b: u8) -> (r: bool)
    ensures
        r == is_unreserved(b),
{
    (65 <= b && b <= 90) || (97 <= b && b <= 122) || (48 <= b && b <= 57) || b == 45 || b == 46
        || b == 95 || b == 126
}

fn push_pct_encoded(out: &mut Vec<u8>, s: &Vec<u8>)
    ensures
        final(out)@ == old(out)@ + pct_encode(s@),
{
    let mut i: usize = 0;
    while i < s.len()
        invariant
            i <= s.len(),
            out@ == old(out)@ + pct_encode(s@.subrange(0, i as int)),
        decreases s.len() - i,
    {
        let b = s[i];
        assert(s@.subrange(0, i + 1).drop_last() =~= s@.subrange(0, i as int));
        if unreserved(b) {
            out.push(b);
        } else {
            out.push(37);
            out.push(hex_digit_exec(b / 16));
            out.push(hex_digit_exec(b % 16));
        }
        assert(out@ =~= old(out)@ + pct_encode(s@.subrange(0, i + 1)));
        i = i + 1;
    }
    assert(s@.subrange(0, s.len() as int) =~= s@);
}

fn push_decimal(out: &mut Vec<u8>, n: u32)
    ensures
        final(out)@ == old(out)@ + decimal(n as nat),
    decreases n,
{
    if n < 10 {
        out.push(48 + n as u8);
        assert(out@ =~= old(out)@ + decimal(n as nat));
    } else {
        push_decimal(out, n / 10);
        out.push(48 + (n % 10) as u8);
        assert(out@ =~= old(out)@ + decimal(n as nat));
    }
}

fn push_field_key(out: &mut Vec<u8>, kind: u8, field: &Vec<u8>)
    ensures
        final(out)@ == old(out)@ + field_key(kind, field@),
{
    out.push(38);
    out.push(111);
    out.push(112);
    out.push(116);
    out.push(105);
    out.push(111);
    out.push(110);
    out.push(91);
    out.push(kind);
    out.push(93);
    out.push(91);
    let mut i: usize = 0;
    let ghost start = out@;
    while i < field.len()
        invariant
            i <= field.len(),
            out@ == start + field@.subrange(0, i as int),
        decreases field.len() - i,
    {
        out.push(field[i]);
        assert(out@ =~= start + field@.subrange(0, i + 1));
        i = i + 1;
    }
    out.push(93);
    out.push(61);
    assert(out@ =~= old(out)@ + field_key(kind, field@));
}

fn push_num_field(out: &mut Vec<u8>, kind: u8, field: &Vec<u8>, n: u32)
    ensures
        final(out)@ == old(out)@ + field_key(kind, field@) + decimal(n as nat),
{
    push_field_key(out, kind, field);
    push_decimal(out, n);
}

fn push_resize_query(out: &mut Vec<u8>, r: Resize)
    ensures
        final(out)@ == old(out)@ + option_query(CachedImageOption::Resize(r)),
{
    let ghost s0 = out@;
    push_num_field(out, 114, &vec![119u8], r.width);
    let ghost s1 = out@;
    push_num_field(out, 114, &vec![104u8], r.height);
    let ghost s2 = out@;
    push_num_field(out, 114, &vec![113u8], r.quality as u32);
    let ghost t2 = num_field(kind_resize(), name_q(), r.quality as nat, seq![]);
    let ghost t1 = num_field(kind_resize(), name_h(), r.height as nat, t2);
    assert(out@ =~= s2 + t2);
    assert(out@ =~= s1 + t1);
    assert(out@ =~= s0 + option_query(CachedImageOption::Resize(r)));
}

proof fn lemma_num_field_step(a: Seq<u8>, k: u8, name: Seq<u8>, n: nat, rest: Seq<u8>)
    ensures
        (a + field_key(k, name) + decimal(n)) + rest == a + num_field(k, name, n, rest),
{
    assert((a + field_key(k, name) + decimal(n)) + rest =~= a + num_field(k, name, n, rest));
}

fn push_blur_query(out: &mut Vec<u8>, b: Blur)
    ensures
        final(out)@ == old(out)@ + option_query(CachedImageOption::Blur(b)),
{
    let ghost s0 = out@;
    push_num_field(out, 98, &vec![119u8], b.width);
    let ghost s1 = out@;
    assert(s1 == s0 + field_key(98, name_w()) + decimal(b.width as nat));
    push_num_field(out, 98, &vec![104u8], b.height);
    let ghost s2 = out@;
    assert(s2 == s1 + field_key(98, name_h()) + decimal(b.height as nat));
    push_num_field(out, 98, &vec![115u8, 119], b.svg_width);
    let ghost s3 = out@;
    assert(s3 == s2 + field_key(98, name_sw()) + decimal(b.svg_width as nat));
    push_num_field(out, 98, &vec![115u8, 104], b.svg_height);
    let ghost s4 = out@;
    assert(s4 == s3 + field_key(98, name_sh()) + decimal(b.svg_height as nat));
    push_num_field(out, 98, &vec![115u8], b.sigma as u32);
    let ghost t4 = num_field(kind_blur(), name_s(), b.sigma as nat, seq![]);
    let ghost t3 = num_field(kind_blur(), name_sh(), b.svg_height as nat, t4);
    let ghost t2 = num_field(kind_blur(), name_sw(), b.svg_width as nat, t3);
    let ghost t1 = num_field(kind_blur(), name_h(), b.height as nat, t2);
    assert(out@ =~= s4 + t4);
    proof {
        lemma_num_field_step(s3, 98, name_sh(), b.svg_height as nat, t4);
        lemma_num_field_step(s2, 98, name_sw(), b.svg_width as nat, t3);
        lemma_num_field_step(s1, 98, name_h(), b.height as nat, t2);
        lemma_num_field_step(s0, 98, name_w(), b.width as nat, t1);
    }
}

fn push_option_query(out: &mut Vec<u8>, o: CachedImageOption)
    ensures
        final(out)@ == old(out)@ + option_query(o),
{
    match o {
        CachedImageOption::Resize(r) => push_resize_query(out, r),
        CachedImageOption::Blur(b) => push_blur_query(out, b),
    }
}

impl CachedImage {
    /// The canonical query encoding of this descriptor, as bytes.
    pub fn query_bytes(&self) -> (r: Vec<u8>)
        ensures
            r@ == query_bytes(self@),
    {
        let mut out: Vec<u8> = vec![115u8, 114, 99, 61];
        let src_bytes = self.src.as_str().as_bytes_vec();
        push_pct_encoded(&mut out, &src_bytes);
        push_option_query(&mut out, self.option);
        assert(out@ =~= query_bytes(self@));
        out
    }
}

} // verus!

verus! {

pub open spec fn is_digit(b: u8) -> bool {
    48 <= b <= 57
}

pub open spec fn is_upper_hex(b: u8) -> bool {
    (48 <= b <= 57) || (65 <= b <= 70)
}

pub open spec fn hex_val(b: u8) -> int {
    if b <= 57 {
        b - 48
    } else {
        b - 55
    }
}

/// Reads back a percent-encoded byte string; `None` on a malformed escape.
pub open spec fn pct_decode(s: Seq<u8>) -> Option<Seq<u8>>
    decreases s.len(),
{
    if s.len() == 0 {
        Some(seq![])
    } else if s[0] == 37 {
        if s.len() >= 3 && is_upper_hex(s[1]) && is_upper_hex(s[2]) {
            match pct_decode(s.subrange(3, s.len() as int)) {
                Some(r) => Some(seq![(hex_val(s[1]) * 16 + hex_val(s[2])) as u8] + r),
                None => None,
            }
        } else {
            None
        }
    } else {
        match pct_decode(s.subrange(1, s.len() as int)) {
            Some(r) => Some(seq![s[0]] + r),
            None => None,
        }
    }
}

/// The value of a run of decimal digits.
pub open spec fn digits_val(s: Seq<u8>) -> nat
    decreases s.len(),
{
    if s.len() == 0 {
        0
    } else {
        digits_val(s.drop_last()) * 10 + (s.last() - 48) as nat
    }
}

proof fn lemma_pct_byte_decode(b: u8, rest: Seq<u8>)
    ensures
        pct_decode(pct_byte(b) + rest) == match pct_decode(rest) {
            Some(r) => Some(seq![b] + r),
            None => None,
        },
{
    let s = pct_byte(b) + rest;
    if is_unreserved(b) {
        assert(s.subrange(1, s.len() as int) =~= rest);
    } else {
        assert(s.subrange(3, s.len() as int) =~= rest);
        assert((hex_val(hex_digit(b / 16)) * 16 + hex_val(hex_digit(b % 16))) as u8 == b);
    }
}

/// Percent-decoding undoes percent-encoding, whatever follows.
proof fn lemma_pct_round_trip(u: Seq<u8>, rest: Seq<u8>)
    ensures
        pct_decode(pct_encode(u) + rest) == match pct_decode(rest) {
            Some(r) => Some(u + r),
            None => None,
        },
    decreases u.len(),
{
    if u.len() == 0 {
        assert(pct_encode(u) + rest =~= rest);
        match pct_decode(rest) {
            Some(r) => {
                assert(u + r =~= r);
            },
            None => {},
        }
    } else {
        let p = u.drop_last();
        let x = u.last();
        assert(pct_encode(u) + rest =~= pct_encode(p) + (pct_byte(x) + rest));
        lemma_pct_round_trip(p, pct_byte(x) + rest);
        lemma_pct_byte_decode(x, rest);
        match pct_decode(rest) {
            Some(r) => {
                assert(p + (seq![x] + r) =~= u + r);
            },
            None => {},
        }
    }
}

/// No `&` occurs in a percent-encoded string.
proof fn lemma_pct_no_amp(u: Seq<u8>)
    ensures
        forall|i: int| 0 <= i < pct_encode(u).len() ==> pct_encode(u)[i] != 38,
        forall|i: int| 0 <= i < pct_encode(u).len() ==> pct_encode(u)[i] < 128,
    decreases u.len(),
{
    if u.len() > 0 {
        let p = u.drop_last();
        let x = u.last();
        lemma_pct_no_amp(p);
        assert(x / 16 < 16 && x % 16 < 16);
        let e = pct_encode(u);
        assert(e == pct_encode(p) + pct_byte(x));
        assert forall|i: int| 0 <= i < e.len() implies e[i] != 38 && e[i] < 128 by {
            if i < pct_encode(p).len() {
                assert(e[i] == pct_encode(p)[i]);
            } else {
                assert(e[i] == pct_byte(x)[i - pct_encode(p).len()]);
            }
        }
    }
}

proof fn lemma_decimal(n: nat)
    ensures
        decimal(n).len() >= 1,
        forall|i: int| 0 <= i < decimal(n).len() ==> is_digit(#[trigger] decimal(n)[i]),
        digits_val(decimal(n)) == n,
    decreases n,
{
    if n >= 10 {
        lemma_decimal(n / 10);
        assert(decimal(n).drop_last() =~= decimal(n / 10));
        assert(decimal(n).last() == (48 + n % 10) as u8);
        assert((n / 10) * 10 + n % 10 == n) by (nonlinear_arith);
        assert(digits_val(decimal(n)) == digits_val(decimal(n / 10)) * 10 + (n % 10));
    } else {
        assert(decimal(n).drop_last() =~= Seq::<u8>::empty());
        assert(digits_val(Seq::<u8>::empty()) == 0);
        assert(decimal(n).last() == (48 + n) as u8);
        assert(digits_val(decimal(n)) == 0 * 10 + n);
        assert forall|i: int| 0 <= i < decimal(n).len() implies is_digit(#[trigger] decimal(n)[i]) by {
            if i < decimal(n).len() - 1 {
                assert(decimal(n)[i] == decimal(n / 10)[i]);
            }
        }
    }
}

fn find_amp(t: &Vec<u8>, pos: usize) -> (e: usize)
    requires
        pos <= t.len(),
    ensures
        pos <= e <= t.len(),
        e == t.len() || t@[e as int] == 38,
        forall|k: int| pos <= k < e ==> t@[k] != 38,
{
    let mut i = pos;
    while i < t.len() && t[i] != 38
        invariant
            pos <= i <= t.len(),
            forall|k: int| pos <= k < i ==> t@[k] != 38,
        decreases t.len() - i,
    {
        i = i + 1;
    }
    i
}

fn hex_val_exec(b: u8) -> (r: u8)
    requires
        is_upper_hex(b),
    ensures
        r == hex_val(b),
{
    if b <= 57 {
        b - 48
    } else {
        b - 55
    }
}

fn pct_decode_range(t: &Vec<u8>, from: usize, to: usize) -> (r: Option<Vec<u8>>)
    requires
        from <= to <= t.len(),
    ensures
        match r {
            Some(v) => pct_decode(t@.subrange(from as int, to as int)) == Some(v@),
            None => pct_decode(t@.subrange(from as int, to as int)) is None,
        },
{
    let ghost s = t@.subrange(from as int, to as int);
    let mut out: Vec<u8> = Vec::new();
    let mut i = from;
    while i < to
        invariant
            from <= i <= to <= t.len(),
            s == t@.subrange(from as int, to as int),
            pct_decode(s) == match pct_decode(t@.subrange(i as int, to as int)) {
                Some(r) => Some(out@ + r),
                None => None,
            },
        decreases to - i,
    {
        let ghost cur = t@.subrange(i as int, to as int);
        let b = t[i];
        if b == 37 {
            if to - i > 2 && (48 <= t[i + 1] && t[i + 1] <= 57 || 65 <= t[i + 1] && t[i + 1] <= 70)
                && (48 <= t[i + 2] && t[i + 2] <= 57 || 65 <= t[i + 2] && t[i + 2] <= 70) {
                let v = hex_val_exec(t[i + 1]) * 16 + hex_val_exec(t[i + 2]);
                assert(cur.subrange(3, cur.len() as int) =~= t@.subrange(i + 3, to as int));
                let ghost prev = out@;
                out.push(v);
                proof {
                    match pct_decode(t@.subrange(i + 3, to as int)) {
                        Some(r) => {
                            assert(prev + (seq![v] + r) =~= out@ + r);
                        },
                        None => {},
                    }
                }
                i = i + 3;
            } else {
                return None;
            }
        } else {
            assert(cur.subrange(1, cur.len() as int) =~= t@.subrange(i + 1, to as int));
            let ghost prev = out@;
            out.push(b);
            proof {
                match pct_decode(t@.subrange(i + 1, to as int)) {
                    Some(r) => {
                        assert(prev + (seq![b] + r) =~= out@ + r);
                    },
                    None => {},
                }
            }
            i = i + 1;
        }
    }
    assert(out@ + seq![] =~= out@);
    Some(out)
}

} // verus!

verus! {

/// `t` holds, from `pos` on, the digits of `n` and then `rest`, which starts
/// with no digit.
pub open spec fn reads_number(t: Seq<u8>, pos: int, n: nat, rest: Seq<u8>) -> bool {
    &&& 0 <= pos <= t.len()
    &&& t.subrange(pos, t.len() as int) == decimal(n) + rest
    &&& n <= u32::MAX
    &&& (rest.len() == 0 || !is_digit(rest[0]))
}

/// `t` holds, from `pos` on, one numeric field and then `rest`, which is empty
/// or starts another field.
pub open spec fn reads_field(
    t: Seq<u8>,
    pos: int,
    kind: u8,
    name: Seq<u8>,
    n: nat,
    rest: Seq<u8>,
) -> bool {
    &&& 0 <= pos <= t.len()
    &&& t.subrange(pos, t.len() as int) == num_field(kind, name, n, rest)
    &&& n <= u32::MAX
    &&& (rest.len() == 0 || rest[0] == 38)
}

fn parse_number(t: &Vec<u8>, pos: usize) -> (r: Option<(u32, usize)>)
    requires
        pos <= t.len(),
    ensures
        forall|n: nat, rest: Seq<u8>|
            #[trigger] reads_number(t@, pos as int, n, rest) ==> r == Some(
                (n as u32, (t.len() - rest.len()) as usize),
            ),
        r matches Some((v, e)) ==> pos <= e <= t.len(),
{
    let mut i = pos;
    let mut acc: u64 = 0;
    while i < t.len() && 48 <= t[i] && t[i] <= 57
        invariant
            pos <= i <= t.len(),
            forall|k: int| pos <= k < i ==> is_digit(#[trigger] t@[k]),
            acc == digits_val(t@.subrange(pos as int, i as int)) || (acc > 0xFFFF_FFFF
                && digits_val(t@.subrange(pos as int, i as int)) > 0xFFFF_FFFF),
            acc <= 0xFFFF_FFFF * 10 + 9,
        decreases t.len() - i,
    {
        let d = t[i] - 48;
        let ghost old_dv = digits_val(t@.subrange(pos as int, i as int));
        assert(t@.subrange(pos as int, i + 1).drop_last() =~= t@.subrange(pos as int, i as int));
        assert(digits_val(t@.subrange(pos as int, i + 1)) == old_dv * 10 + d);
        if acc <= 0xFFFF_FFFF {
            acc = acc * 10 + d as u64;
        } else {
            assert(old_dv * 10 + d >= old_dv) by (nonlinear_arith)
                requires
                    old_dv >= 0,
                    d >= 0,
            ;
        }
        i = i + 1;
    }
    proof {
        assert forall|n: nat, rest: Seq<u8>| #[trigger]
            reads_number(t@, pos as int, n, rest) implies i == t.len() - rest.len() && acc == n by {
            lemma_decimal(n);
            let dn = decimal(n);
            let l = dn.len() as int;
            assert((dn + rest).len() == t.len() - pos);
            assert forall|k: int| 0 <= k < l implies t@[pos + k] == dn[k] by {
                assert(t@.subrange(pos as int, t.len() as int)[k] == (dn + rest)[k]);
            }
            if i < pos + l {
                assert(is_digit(dn[i - pos]));
            } else if i > pos + l {
                assert(t@.subrange(pos as int, t.len() as int)[l] == (dn + rest)[l]);
                assert(is_digit(t@[pos + l]));
            }
            assert(t@.subrange(pos as int, i as int) =~= dn);
        }
    }
    if i == pos || acc > 0xFFFF_FFFF {
        proof {
            assert forall|n: nat, rest: Seq<u8>| #[trigger]
                reads_number(t@, pos as int, n, rest) implies false by {
                lemma_decimal(n);
                assert(i == t.len() - rest.len() && acc == n);
                assert((decimal(n) + rest).len() == t.len() - pos);
            }
        }
        return None;
    }
    Some((acc as u32, i))
}

fn lit_at(t: &Vec<u8>, pos: usize, lit: &Vec<u8>) -> (r: bool)
    requires
        pos <= t.len(),
    ensures
        r == (pos + lit.len() <= t.len() && t@.subrange(pos as int, pos + lit.len()) == lit@),
{
    if lit.len() > t.len() - pos {
        return false;
    }
    let mut k: usize = 0;
    while k < lit.len()
        invariant
            k <= lit.len(),
            pos + lit.len() <= t.len(),
            forall|j: int| 0 <= j < k ==> t@[pos + j] == lit@[j],
        decreases lit.len() - k,
    {
        if t[pos + k] != lit[k] {
            assert(t@.subrange(pos as int, pos + lit.len())[k as int] != lit@[k as int]);
            return false;
        }
        k = k + 1;
    }
    assert(t@.subrange(pos as int, pos + lit.len()) =~= lit@);
    true
}

fn parse_field(t: &Vec<u8>, pos: usize, kind: u8, name: &Vec<u8>) -> (r: Option<(u32, usize)>)
    requires
        pos <= t.len(),
    ensures
        forall|n: nat, rest: Seq<u8>|
            #[trigger] reads_field(t@, pos as int, kind, name@, n, rest) ==> r == Some(
                (n as u32, (t.len() - rest.len()) as usize),
            ),
        r matches Some((v, e)) ==> pos <= e <= t.len(),
        r is Some ==> pos + field_key(kind, name@).len() <= t.len() && t@.subrange(
            pos as int,
            pos + field_key(kind, name@).len(),
        ) == field_key(kind, name@),
{
    let mut key: Vec<u8> = Vec::new();
    push_field_key(&mut key, kind, name);
    assert(key@ =~= field_key(kind, name@));
    if !lit_at(t, pos, &key) {
        proof {
            assert forall|n: nat, rest: Seq<u8>| #[trigger]
                reads_field(t@, pos as int, kind, name@, n, rest) implies false by {
                let whole = num_field(kind, name@, n, rest);
                assert(whole.len() == t.len() - pos);
                assert(whole.len() >= key.len());
                assert(t@.subrange(pos as int, pos + key.len()) =~= whole.subrange(
                    0,
                    key.len() as int,
                ));
                assert(whole.subrange(0, key.len() as int) =~= key@);
            }
        }
        return None;
    }
    let start = pos + key.len();
    let r = parse_number(t, start);
    proof {
        assert forall|n: nat, rest: Seq<u8>| #[trigger]
            reads_field(t@, pos as int, kind, name@, n, rest) implies reads_number(
            t@,
            start as int,
            n,
            rest,
        ) by {
            let whole = num_field(kind, name@, n, rest);
            assert(t@.subrange(start as int, t.len() as int) =~= whole.subrange(
                key.len() as int,
                whole.len() as int,
            ));
            assert(whole.subrange(key.len() as int, whole.len() as int) =~= decimal(n) + rest);
        }
    }
    r
}

} // verus!

verus! {

proof fn lemma_field_start(kind: u8, name: Seq<u8>, n: nat, rest: Seq<u8>)
    ensures
        num_field(kind, name, n, rest).len() > 8,
        num_field(kind, name, n, rest)[0] == 38,
        num_field(kind, name, n, rest)[8] == kind,
{
    assert(num_field(kind, name, n, rest)[0] == field_key(kind, name)[0]);
    assert(num_field(kind, name, n, rest)[8] == field_key(kind, name)[8]);
}

/// From `pos` on, `t` holds `whole`, which is one field and then `rest`:
/// after the field the remainder of `t` is `rest`.
proof fn lemma_after_field(t: Seq<u8>, pos: int, kind: u8, name: Seq<u8>, n: nat, rest: Seq<u8>)
    requires
        0 <= pos <= t.len(),
        t.subrange(pos, t.len() as int) == num_field(kind, name, n, rest),
    ensures
        t.subrange(t.len() - rest.len(), t.len() as int) == rest,
        rest.len() <= t.len() - pos,
{
    let whole = num_field(kind, name, n, rest);
    assert(whole.subrange(whole.len() - rest.len(), whole.len() as int) =~= rest);
    assert(t.subrange(t.len() - rest.len(), t.len() as int) =~= whole.subrange(
        whole.len() - rest.len(),
        whole.len() as int,
    ));
}

pub open spec fn resize_fields(t: Seq<u8>, pos: int, o: Resize) -> bool {
    {
            let r2 = num_field(kind_resize(), name_q(), o.quality as nat, seq![]);
            let r1 = num_field(kind_resize(), name_h(), o.height as nat, r2);
            &&& reads_field(t, pos, 114, seq![119u8], o.width as nat, r1)
            &&& reads_field(t, t.len() - r1.len(), 114, seq![104u8], o.height as nat, r2)
            &&& reads_field(t, t.len() - r2.len(), 114, seq![113u8], o.quality as nat, seq![])
        }
}

proof fn lemma_resize_fields(t: Seq<u8>, pos: int, o: Resize)
    requires
        0 <= pos <= t.len(),
        t.subrange(pos, t.len() as int) == option_query(CachedImageOption::Resize(o)),
    ensures
        resize_fields(t, pos, o),
{
    let r2 = num_field(kind_resize(), name_q(), o.quality as nat, seq![]);
    let r1 = num_field(kind_resize(), name_h(), o.height as nat, r2);
    lemma_field_start(kind_resize(), name_q(), o.quality as nat, seq![]);
    lemma_field_start(kind_resize(), name_h(), o.height as nat, r2);
    lemma_after_field(t, pos, 114, seq![119u8], o.width as nat, r1);
    lemma_after_field(t, t.len() - r1.len(), 114, seq![104u8], o.height as nat, r2);
}

pub open spec fn blur_fields(t: Seq<u8>, pos: int, o: Blur) -> bool {
    {
            let r4 = num_field(kind_blur(), name_s(), o.sigma as nat, seq![]);
            let r3 = num_field(kind_blur(), name_sh(), o.svg_height as nat, r4);
            let r2 = num_field(kind_blur(), name_sw(), o.svg_width as nat, r3);
            let r1 = num_field(kind_blur(), name_h(), o.height as nat, r2);
            &&& reads_field(t, pos, 98, seq![119u8], o.width as nat, r1)
            &&& reads_field(t, t.len() - r1.len(), 98, seq![104u8], o.height as nat, r2)
            &&& reads_field(t, t.len() - r2.len(), 98, seq![115u8, 119], o.svg_width as nat, r3)
            &&& reads_field(t, t.len() - r3.len(), 98, seq![115u8, 104], o.svg_height as nat, r4)
            &&& reads_field(t, t.len() - r4.len(), 98, seq![115u8], o.sigma as nat, seq![])
        }
}

proof fn lemma_blur_fields(t: Seq<u8>, pos: int, o: Blur)
    requires
        0 <= pos <= t.len(),
        t.subrange(pos, t.len() as int) == option_query(CachedImageOption::Blur(o)),
    ensures
        blur_fields(t, pos, o),
{
    let r4 = num_field(kind_blur(), name_s(), o.sigma as nat, seq![]);
    let r3 = num_field(kind_blur(), name_sh(), o.svg_height as nat, r4);
    let r2 = num_field(kind_blur(), name_sw(), o.svg_width as nat, r3);
    let r1 = num_field(kind_blur(), name_h(), o.height as nat, r2);
    lemma_field_start(kind_blur(), name_s(), o.sigma as nat, seq![]);
    lemma_field_start(kind_blur(), name_sh(), o.svg_height as nat, r4);
    lemma_field_start(kind_blur(), name_sw(), o.svg_width as nat, r3);
    lemma_field_start(kind_blur(), name_h(), o.height as nat, r2);
    lemma_after_field(t, pos, 98, seq![119u8], o.width as nat, r1);
    lemma_after_field(t, t.len() - r1.len(), 98, seq![104u8], o.height as nat, r2);
    lemma_after_field(t, t.len() - r2.len(), 98, seq![115u8, 119], o.svg_width as nat, r3);
    lemma_after_field(t, t.len() - r3.len(), 98, seq![115u8, 104], o.svg_height as nat, r4);
}

fn parse_resize(t: &Vec<u8>, pos: usize) -> (r: Option<Resize>)
    requires
        pos <= t.len(),
    ensures
        forall|o: Resize|
            t@.subrange(pos as int, t.len() as int) == #[trigger] option_query(
                CachedImageOption::Resize(o),
            ) ==> r == Some(o),
{
    proof {
        assert forall|o|
            t@.subrange(pos as int, t.len() as int) == #[trigger] option_query(
                CachedImageOption::Resize(o),
            ) implies resize_fields(t@, pos as int, o) by {
            lemma_resize_fields(t@, pos as int, o);
        }
    }
    let nw = vec![119u8];
    assert(nw@ =~= seq![119u8]);
    let nh = vec![104u8];
    assert(nh@ =~= seq![104u8]);
    let nq = vec![113u8];
    assert(nq@ =~= seq![113u8]);
    let (width, after_w) = match parse_field(t, pos, 114, &nw) {
        Some(x) => x,
        None => {
            return None;
        },
    };
    let (height, after_h) = match parse_field(t, after_w, 114, &nh) {
        Some(x) => x,
        None => {
            return None;
        },
    };
    let (quality, after_q) = match parse_field(t, after_h, 114, &nq) {
        Some(x) => x,
        None => {
            return None;
        },
    };
    if quality > 255 || after_q != t.len() {
        return None;
    }
    Some(Resize { width, height, quality: quality as u8 })
}

fn parse_blur(t: &Vec<u8>, pos: usize) -> (r: Option<Blur>)
    requires
        pos <= t.len(),
    ensures
        forall|o: Blur|
            t@.subrange(pos as int, t.len() as int) == #[trigger] option_query(
                CachedImageOption::Blur(o),
            ) ==> r == Some(o),
{
    proof {
        assert forall|o|
            t@.subrange(pos as int, t.len() as int) == #[trigger] option_query(
                CachedImageOption::Blur(o),
            ) implies blur_fields(t@, pos as int, o) by {
            lemma_blur_fields(t@, pos as int, o);
        }
    }
    let nw = vec![119u8];
    assert(nw@ =~= seq![119u8]);
    let nh = vec![104u8];
    assert(nh@ =~= seq![104u8]);
    let nsw = vec![115u8, 119];
    assert(nsw@ =~= seq![115u8, 119]);
    let nsh = vec![115u8, 104];
    assert(nsh@ =~= seq![115u8, 104]);
    let ns = vec![115u8];
    assert(ns@ =~= seq![115u8]);
    let (width, after_w) = match parse_field(t, pos, 98, &nw) {
        Some(x) => x,
        None => {
            return None;
        },
    };
    let (height, after_h) = match parse_field(t, after_w, 98, &nh) {
        Some(x) => x,
        None => {
            return None;
        },
    };
    let (svg_width, after_sw) = match parse_field(t, after_h, 98, &nsw) {
        Some(x) => x,
        None => {
            return None;
        },
    };
    let (svg_height, after_sh) = match parse_field(t, after_sw, 98, &nsh) {
        Some(x) => x,
        None => {
            return None;
        },
    };
    let (sigma, after_s) = match parse_field(t, after_sh, 98, &ns) {
        Some(x) => x,
        None => {
            return None;
        },
    };
    if sigma > 255 || after_s != t.len() {
        return None;
    }
    Some(Blur { width, height, svg_width, svg_height, sigma: sigma as u8 })
}

fn parse_option(t: &Vec<u8>, pos: usize) -> (r: Option<CachedImageOption>)
    requires
        pos <= t.len(),
    ensures
        forall|o: CachedImageOption|
            t@.subrange(pos as int, t.len() as int) == #[trigger] option_query(o) ==> r == Some(o),
{
    let w = vec![119u8];
    let probe = parse_field(t, pos, 114, &w);
    if probe.is_some() {
        proof {
            assert forall|o: CachedImageOption|
                t@.subrange(pos as int, t.len() as int) == #[trigger] option_query(
                    o,
                ) implies o is Resize by {
                if let CachedImageOption::Blur(b) = o {
                    let whole = option_query(o);
                    lemma_field_start(kind_blur(), name_w(), b.width as nat,
                        num_field(kind_blur(), name_h(), b.height as nat,
                        num_field(kind_blur(), name_sw(), b.svg_width as nat,
                        num_field(kind_blur(), name_sh(), b.svg_height as nat,
                        num_field(kind_blur(), name_s(), b.sigma as nat, seq![])))));
                    assert(t@.subrange(pos as int, pos + field_key(114, w@).len())[8]
                        == whole[8]);
                    assert(field_key(114, w@)[8] == 114);
                }
            }
        }
        match parse_resize(t, pos) {
            Some(r) => Some(CachedImageOption::Resize(r)),
            None => None,
        }
    } else {
        proof {
            assert forall|o: CachedImageOption|
                t@.subrange(pos as int, t.len() as int) == #[trigger] option_query(
                    o,
                ) implies o is Blur by {
                if let CachedImageOption::Resize(x) = o {
                    let r2 = num_field(kind_resize(), name_q(), x.quality as nat, seq![]);
                    let r1 = num_field(kind_resize(), name_h(), x.height as nat, r2);
                    lemma_field_start(kind_resize(), name_h(), x.height as nat, r2);
                    lemma_resize_fields(t@, pos as int, x);
                    assert(w@ =~= seq![119u8]);
                }
            }
        }
        match parse_blur(t, pos) {
            Some(b) => Some(CachedImageOption::Blur(b)),
            None => None,
        }
    }
}

} // verus!

verus! {

/// Relies on `String::from_utf8`: a valid UTF-8 byte string is accepted and
/// decoded, any other is refused.
#[verifier::external_body]
fn utf8_string(v: Vec<u8>) -> (r: Option<String>)
    ensures
        r is Some <==> valid_utf8(v@),
        r matches Some(s) ==> s@ == decode_utf8(v@),
{
    String::from_utf8(v).ok()
}

fn bytes_equal(a: &Vec<u8>, b: &Vec<u8>) -> (r: bool)
    ensures
        r == (a@ == b@),
{
    if a.len() != b.len() {
        return false;
    }
    let mut i: usize = 0;
    while i < a.len()
        invariant
            i <= a.len() == b.len(),
            forall|k: int| 0 <= k < i ==> a@[k] == b@[k],
        decreases a.len() - i,
    {
        if a[i] != b[i] {
            return false;
        }
        i = i + 1;
    }
    assert(a@ =~= b@);
    true
}

proof fn lemma_option_query_starts(o: CachedImageOption)
    ensures
        option_query(o).len() > 0,
        option_query(o)[0] == 38,
{
    match o {
        CachedImageOption::Resize(r) => {
            let r2 = num_field(kind_resize(), name_q(), r.quality as nat, seq![]);
            let r1 = num_field(kind_resize(), name_h(), r.height as nat, r2);
            lemma_field_start(kind_resize(), name_w(), r.width as nat, r1);
        },
        CachedImageOption::Blur(b) => {
            let r4 = num_field(kind_blur(), name_s(), b.sigma as nat, seq![]);
            let r3 = num_field(kind_blur(), name_sh(), b.svg_height as nat, r4);
            let r2 = num_field(kind_blur(), name_sw(), b.svg_width as nat, r3);
            let r1 = num_field(kind_blur(), name_h(), b.height as nat, r2);
            lemma_field_start(kind_blur(), name_w(), b.width as nat, r1);
        },
    }
}

/// Where the parts of a canonical query encoding lie.
pub open spec fn query_layout(t: Seq<u8>, d: DescriptorModel) -> bool {
        {
            let u = encode_utf8(d.0);
            let l = pct_encode(u).len() as int;
            &&& 4 + l < t.len()
            &&& t[0] == 115 && t[1] == 114 && t[2] == 99 && t[3] == 61
            &&& forall|k: int| 4 <= k < 4 + l ==> t[k] != 38
            &&& t[4 + l] == 38
            &&& pct_decode(t.subrange(4, 4 + l)) == Some(u)
            &&& t.subrange(4 + l, t.len() as int) == option_query(d.1)
            &&& valid_utf8(u)
            &&& decode_utf8(u) == d.0
        }
}

proof fn lemma_query_layout(t: Seq<u8>, d: DescriptorModel)
    requires
        t == query_bytes(d),
    ensures
        query_layout(t, d),
{
    let u = encode_utf8(d.0);
    let l = pct_encode(u).len() as int;
    lemma_pct_no_amp(u);
    lemma_option_query_starts(d.1);
    assert(t.subrange(0, 4) =~= key_src());
    assert(t[0] == t.subrange(0, 4)[0]);
    assert(t[1] == t.subrange(0, 4)[1]);
    assert(t[2] == t.subrange(0, 4)[2]);
    assert(t[3] == t.subrange(0, 4)[3]);
    assert forall|k: int| 4 <= k < 4 + l implies t[k] != 38 by {
        assert(t[k] == (pct_encode(u) + option_query(d.1))[k - 4]);
        assert(t[k] == pct_encode(u)[k - 4]);
    }
    assert(t[4 + l] == (pct_encode(u) + option_query(d.1))[l]);
    assert(t.subrange(4, 4 + l) =~= pct_encode(u));
    assert(t.subrange(4 + l, t.len() as int) =~= option_query(d.1));
    lemma_pct_round_trip(u, seq![]);
    assert(pct_encode(u) + seq![] =~= pct_encode(u));
    assert(u + seq![] =~= u);
    encode_utf8_valid_utf8(d.0);
    encode_utf8_decode_utf8(d.0);
}

/// Reads a descriptor back from its query encoding. Only canonical encodings
/// are accepted, and each one gives back the descriptor it encodes.
pub fn decode_query_bytes(t: &Vec<u8>) -> (r: Option<CachedImage>)
    ensures
        r matches Some(x) ==> query_bytes(x@) == t@,
        forall|d: DescriptorModel| #[trigger] query_bytes(d) == t@ ==> (r matches Some(x) && x@ == d),
{
    proof {
        assert forall|d: DescriptorModel| #[trigger] query_bytes(d) == t@ implies query_layout(
            t@,
            d,
        ) by {
            lemma_query_layout(t@, d);
        }
    }
    if t.len() < 4 || !(t[0] == 115 && t[1] == 114 && t[2] == 99 && t[3] == 61) {
        return None;
    }
    let e = find_amp(t, 4);
    proof {
        assert forall|d: DescriptorModel| #[trigger] query_bytes(d) == t@ implies e == 4
            + pct_encode(encode_utf8(d.0)).len() by {
            let l = pct_encode(encode_utf8(d.0)).len() as int;
            assert(query_layout(t@, d));
            if e < 4 + l {
                assert(t@[e as int] != 38);
            }
        }
    }
    let raw = match pct_decode_range(t, 4, e) {
        Some(v) => v,
        None => {
            return None;
        },
    };
    let src = match utf8_string(raw) {
        Some(s) => s,
        None => {
            return None;
        },
    };
    let option = match parse_option(t, e) {
        Some(o) => o,
        None => {
            return None;
        },
    };
    let cand = CachedImage { src, option };
    let enc = cand.query_bytes();
    if bytes_equal(&enc, t) {
        Some(cand)
    } else {
        None
    }
}

} // verus!

verus! {

pub open spec fn all_ascii(b: Seq<u8>) -> bool {
    forall|i: int| 0 <= i < b.len() ==> #[trigger] b[i] < 128
}

/// An ASCII byte string is valid UTF-8 and decodes byte for byte.
pub proof fn lemma_ascii_utf8(b: Seq<u8>)
    requires
        all_ascii(b),
    ensures
        valid_utf8(b),
        decode_utf8(b) == b.map_values(|x: u8| x as char),
    decreases b.len(),
{
    if b.len() > 0 {
        let tail = b.subrange(1, b.len() as int);
        assert(all_ascii(tail)) by {
            assert forall|i: int| 0 <= i < tail.len() implies #[trigger] tail[i] < 128 by {
                assert(tail[i] == b[i + 1]);
            }
        }
        lemma_ascii_utf8(tail);
        let b0 = b[0];
        assert(b0 < 128);
        assert(is_leading_byte_width_1(b0));
        assert(codepoint_width_1(b0) == b0 as u32) by (bit_vector)
            requires
                b0 < 128,
        ;
        assert(pop_first_scalar(b) =~= tail);
        assert(decode_utf8(b) =~= b.map_values(|x: u8| x as char));
    }
}

proof fn lemma_query_ascii(d: DescriptorModel)
    ensures
        all_ascii(query_bytes(d)),
{
    let u = encode_utf8(d.0);
    lemma_pct_no_amp(u);
    let q = query_bytes(d);
    assert forall|i: int| 0 <= i < q.len() implies #[trigger] q[i] < 128 by {
        let o = option_query(d.1);
        lemma_option_ascii(d.1);
        if i < 4 {
            assert(q[i] == key_src()[i]);
        } else if i < 4 + pct_encode(u).len() {
            assert(q[i] == pct_encode(u)[i - 4]);
        } else {
            assert(q[i] == o[i - 4 - pct_encode(u).len()]);
        }
    }
}

proof fn lemma_num_field_ascii(kind: u8, name: Seq<u8>, n: nat, rest: Seq<u8>)
    requires
        kind < 128,
        all_ascii(name),
        all_ascii(rest),
    ensures
        all_ascii(num_field(kind, name, n, rest)),
{
    lemma_decimal(n);
    let f = num_field(kind, name, n, rest);
    let k = field_key(kind, name);
    assert forall|i: int| 0 <= i < f.len() implies #[trigger] f[i] < 128 by {
        if i < k.len() {
            assert(f[i] == k[i]);
            if 11 <= i < 11 + name.len() {
                assert(k[i] == name[i - 11]);
            }
        } else if i < k.len() + decimal(n).len() {
            assert(f[i] == decimal(n)[i - k.len()]);
        } else {
            assert(f[i] == rest[i - k.len() - decimal(n).len()]);
        }
    }
}

proof fn lemma_option_ascii(o: CachedImageOption)
    ensures
        all_ascii(option_query(o)),
{
    assert(all_ascii(Seq::<u8>::empty()));
    assert(all_ascii(seq![119u8]));
    assert(all_ascii(seq![104u8]));
    assert(all_ascii(seq![113u8]));
    assert(all_ascii(seq![115u8]));
    assert(all_ascii(seq![115u8, 119]));
    assert(all_ascii(seq![115u8, 104]));
    match o {
        CachedImageOption::Resize(r) => {
            let r2 = num_field(kind_resize(), name_q(), r.quality as nat, seq![]);
            lemma_num_field_ascii(kind_resize(), name_q(), r.quality as nat, seq![]);
            let r1 = num_field(kind_resize(), name_h(), r.height as nat, r2);
            lemma_num_field_ascii(kind_resize(), name_h(), r.height as nat, r2);
            lemma_num_field_ascii(kind_resize(), name_w(), r.width as nat, r1);
        },
        CachedImageOption::Blur(b) => {
            let r4 = num_field(kind_blur(), name_s(), b.sigma as nat, seq![]);
            lemma_num_field_ascii(kind_blur(), name_s(), b.sigma as nat, seq![]);
            let r3 = num_field(kind_blur(), name_sh(), b.svg_height as nat, r4);
            lemma_num_field_ascii(kind_blur(), name_sh(), b.svg_height as nat, r4);
            let r2 = num_field(kind_blur(), name_sw(), b.svg_width as nat, r3);
            lemma_num_field_ascii(kind_blur(), name_sw(), b.svg_width as nat, r3);
            let r1 = num_field(kind_blur(), name_h(), b.height as nat, r2);
            lemma_num_field_ascii(kind_blur(), name_h(), b.height as nat, r2);
            lemma_num_field_ascii(kind_blur(), name_w(), b.width as nat, r1);
        },
    }
}

/// The query encoding of a descriptor as text.
pub open spec fn query_text(d: DescriptorModel) -> Seq<char> {
    decode_utf8(query_bytes(d))
}

/// Why a query string was refused.
#[derive(Clone, Copy, Debug, PartialEq, Eq, Structural)]
pub enum QueryError {
    /// The text is not the canonical query encoding of any descriptor.
    NotADescriptor,
}

impl CachedImage {
    /// The canonical query encoding of this descriptor, as text.
    pub fn query_string(&self) -> (r: String)
        ensures
            r@ == query_text(self@),
            encode_utf8(r@) == query_bytes(self@),
    {
        let b = self.query_bytes();
        proof {
            lemma_query_ascii(self@);
            lemma_ascii_utf8(b@);
            decode_utf8_encode_utf8(b@);
        }
        match utf8_string(b) {
            Some(s) => s,
            None => String::new(),
        }
    }

    /// Reads a descriptor from a query string. Exactly the canonical
    /// encodings are accepted; each gives back the descriptor it encodes.
    pub fn from_query_string(q: &str) -> (r: Result<CachedImage, QueryError>)
        ensures
            r matches Ok(x) ==> query_bytes(x@) == encode_utf8(q@),
            r is Err ==> forall|d: DescriptorModel| #[trigger] query_bytes(d) != encode_utf8(q@),
            forall|d: DescriptorModel| #[trigger]
                query_bytes(d) == encode_utf8(q@) ==> (r matches Ok(x) && x@ == d),
    {
        let b = q.as_bytes_vec();
        match decode_query_bytes(&b) {
            Some(x) => Ok(x),
            None => Err(QueryError::NotADescriptor),
        }
    }
}

} // verus!

verus! {

/// The padded URL-safe base64 text of a byte string.
pub uninterp spec fn base64_url(b: Seq<u8>) -> Seq<char>;

/// Relies on base64's `URL_SAFE` engine, `Engine::encode`: padded output over
/// the alphabet `A-Z a-z 0-9 - _`, so it holds no `/` and comes in groups of
/// four characters.
#[verifier::external_body]
fn base64_url_encode(b: &Vec<u8>) -> (r: String)
    ensures
        r@ == base64_url(b@),
        r@.len() % 4 == 0,
        forall|i: int| 0 <= i < r@.len() ==> r@[i] != '/',
{
    base64::engine::general_purpose::URL_SAFE.encode(b)
}

pub open spec fn bytes_of(r: Option<Vec<u8>>) -> Option<Seq<u8>> {
    match r {
        Some(v) => Some(v@),
        None => None,
    }
}

/// Relies on base64's `URL_SAFE` engine, `Engine::decode`, which requires
/// canonical padding: it accepts exactly the texts that `encode` produces and
/// returns the bytes they encode.
#[verifier::external_body]
fn base64_url_decode(s: &str) -> (r: Option<Vec<u8>>)
    ensures
        r matches Some(v) ==> s@.len() % 4 == 0 && base64_url(v@) == s@,
        forall|b: Seq<u8>| #[trigger] base64_url(b) == s@ ==> bytes_of(r) == Some(b),
{
    base64::engine::general_purpose::URL_SAFE.decode(s).ok()
}

pub open spec fn no_slash(s: Seq<char>) -> bool {
    forall|i: int| 0 <= i < s.len() ==> s[i] != '/'
}

pub open spec fn strip_leading_slashes(s: Seq<char>) -> Seq<char>
    decreases s.len(),
{
    if s.len() > 0 && s[0] == '/' {
        strip_leading_slashes(s.drop_first())
    } else {
        s
    }
}

pub open spec fn strip_trailing_slashes(s: Seq<char>) -> Seq<char>
    decreases s.len(),
{
    if s.len() > 0 && s.last() == '/' {
        strip_trailing_slashes(s.drop_last())
    } else {
        s
    }
}

/// A path with the slashes at both ends removed.
pub open spec fn trim_slashes(s: Seq<char>) -> Seq<char> {
    strip_trailing_slashes(strip_leading_slashes(s))
}

pub open spec fn cache_dir() -> Seq<char> {
    seq!['c', 'a', 'c', 'h', 'e', '/', 'i', 'm', 'a', 'g', 'e', '/']
}

/// The extension of the file a variant is stored in.
pub open spec fn extension(o: CachedImageOption) -> Seq<char> {
    match o {
        CachedImageOption::Resize(_) => seq!['w', 'e', 'b', 'p'],
        CachedImageOption::Blur(_) => seq!['s', 'v', 'g'],
    }
}

/// `cache/image/<base64 of the query encoding>/<source>.<extension>`: the
/// extension is appended to the source path, so `a.png` is stored as
/// `a.png.webp`, and no segment of the source can stand where the encoding does.
pub open spec fn file_path_of(d: DescriptorModel) -> Seq<char> {
    cache_dir() + base64_url(query_bytes(d)) + seq!['/'] + trim_slashes(d.0) + seq!['.']
        + extension(d.1)
}

/// A `/`-separated segment of `p` starts at `i`.
pub open spec fn segment_start(p: Seq<char>, i: int) -> bool {
    0 <= i <= p.len() && (i == 0 || p[i - 1] == '/')
}

/// The segment of `p` that starts at `i`.
pub open spec fn segment_at(p: Seq<char>, i: int) -> Seq<char> {
    p.subrange(i, find_char(p, '/', i))
}

/// The text is the base64 of the query encoding of some descriptor.
pub open spec fn names_descriptor(s: Seq<char>) -> bool {
    exists|d: DescriptorModel| #[trigger] base64_url(query_bytes(d)) == s
}

/// The text with the slashes at both ends removed.
pub fn trim_str(s: &str) -> (r: &str)
    ensures
        r@ == trim_slashes(s@),
{
    let n = s.unicode_len();
    let mut a: usize = 0;
    assert(s@.subrange(0, n as int) =~= s@);
    while a < n && s.get_char(a) == '/'
        invariant
            a <= n == s@.len(),
            strip_leading_slashes(s@) == strip_leading_slashes(s@.subrange(a as int, n as int)),
        decreases n - a,
    {
        assert(s@.subrange(a as int, n as int).drop_first() =~= s@.subrange(a + 1, n as int));
        a = a + 1;
    }
    assert(strip_leading_slashes(s@.subrange(a as int, n as int)) == s@.subrange(a as int, n as int));
    let mut b: usize = n;
    while b > a && s.get_char(b - 1) == '/'
        invariant
            a <= b <= n == s@.len(),
            strip_trailing_slashes(s@.subrange(a as int, n as int)) == strip_trailing_slashes(
                s@.subrange(a as int, b as int),
            ),
        decreases b - a,
    {
        assert(s@.subrange(a as int, b as int).drop_last() =~= s@.subrange(a as int, b - 1));
        b = b - 1;
    }
    s.substring_char(a, b)
}

fn extension_str(o: CachedImageOption) -> (r: &'static str)
    ensures
        r@ == extension(o),
{
    match o {
        CachedImageOption::Resize(_) => {
            proof {
                reveal_strlit("webp");
            }
            "webp"
        },
        CachedImageOption::Blur(_) => {
            proof {
                reveal_strlit("svg");
            }
            "svg"
        },
    }
}

fn next_slash(p: &str, start: usize, n: usize) -> (e: usize)
    requires
        start <= n == p@.len(),
    ensures
        e == find_char(p@, '/', start as int),
        start <= e <= n,
        e == n || p@[e as int] == '/',
        forall|k: int| start <= k < e ==> p@[k] != '/',
{
    let mut i = start;
    while i < n && p.get_char(i) != '/'
        invariant
            start <= i <= n == p@.len(),
            forall|k: int| start <= k < i ==> p@[k] != '/',
            find_char(p@, '/', start as int) == find_char(p@, '/', i as int),
        decreases n - i,
    {
        i = i + 1;
    }
    i
}

impl CachedImage {
    /// The path, relative to the file root, under which this variant is
    /// stored.
    pub fn get_file_path(&self) -> (r: String)
        ensures
            r@ == file_path_of(self@),
            no_slash(base64_url(query_bytes(self@))),
    {
        let q = self.query_bytes();
        let b = base64_url_encode(&q);
        proof {
            reveal_strlit("cache/image/");
            reveal_strlit("/");
            reveal_strlit(".");
        }
        let mut out = String::from_str("cache/image/");
        out.append(b.as_str());
        out.append("/");
        out.append(trim_str(self.src.as_str()));
        out.append(".");
        out.append(extension_str(self.option));
        assert(out@ =~= file_path_of(self@));
        out
    }

    /// Scans the `/`-separated segments of a path and returns the descriptor
    /// of the first one that is the base64 text of a canonical query encoding.
    pub fn from_file_path(path: &str) -> (r: Option<CachedImage>)
        ensures
            r matches Some(x) ==> exists|i: int|
                segment_start(path@, i) && segment_at(path@, i) == base64_url(query_bytes(x@))
                    && forall|i2: int|
                    0 <= i2 < i && segment_start(path@, i2) ==> !names_descriptor(
                        #[trigger] segment_at(path@, i2),
                    ),
            r is None ==> forall|i: int|
                segment_start(path@, i) ==> !names_descriptor(#[trigger] segment_at(path@, i)),
            forall|d: DescriptorModel|
                path@ == #[trigger] file_path_of(d) && no_slash(base64_url(query_bytes(d))) ==> (
                r matches Some(x) && x@ == d),
    {
        let n = path.unicode_len();
        let mut start: usize = 0;
        loop
            invariant
                start <= n == path@.len(),
                start == 0 || path@[start - 1] == '/',
                forall|i2: int|
                    0 <= i2 < start && segment_start(path@, i2) ==> !names_descriptor(
                        #[trigger] segment_at(path@, i2),
                    ),
                forall|d: DescriptorModel|
                    path@ == #[trigger] file_path_of(d) && no_slash(base64_url(query_bytes(d)))
                        ==> (start == 0 || start == 6 || start == 12),
            decreases n - start,
        {
            let end = next_slash(path, start, n);
            let seg = path.substring_char(start, end);
            proof {
                assert forall|d: DescriptorModel|
                    path@ == #[trigger] file_path_of(d) && no_slash(base64_url(query_bytes(d)))
                        implies (start == 0 ==> end == 5) && (start == 6 ==> end == 11) && (
                    start == 12 ==> seg@ == base64_url(query_bytes(d))) by {
                    let b = base64_url(query_bytes(d));
                    let p = path@;
                    assert(p.subrange(0, 12) =~= cache_dir());
                    assert(p[5] == cache_dir()[5]);
                    assert(p[11] == cache_dir()[11]);
                    if start == 0 && end < 5 {
                        assert(p[end as int] == cache_dir()[end as int]);
                    }
                    if start == 6 && end < 11 {
                        assert(p[end as int] == cache_dir()[end as int]);
                    }
                    if start == 12 {
                        assert(p.subrange(12, 12 + b.len() as int) =~= b);
                        assert(p[12 + b.len() as int] == '/');
                        if end < 12 + b.len() {
                            assert(p[end as int] == b[end - 12]);
                        }
                        assert(seg@ =~= b);
                    }
                }
            }
            assert(seg@ == segment_at(path@, start as int));
            match base64_url_decode(seg) {
                Some(bytes) => {
                    match decode_query_bytes(&bytes) {
                        Some(x) => {
                            return Some(x);
                        },
                        None => {},
                    }
                },
                None => {},
            }
            assert(!names_descriptor(segment_at(path@, start as int))) by {
                if names_descriptor(segment_at(path@, start as int)) {
                    let d = choose|d: DescriptorModel| #[trigger]
                        base64_url(query_bytes(d)) == segment_at(path@, start as int);
                    assert(base64_url(query_bytes(d)) == seg@);
                }
            }
            assert forall|i2: int|
                0 <= i2 < end + 1 && segment_start(path@, i2) implies !names_descriptor(
                #[trigger] segment_at(path@, i2),
            ) by {
                if i2 > start {
                    assert(path@[i2 - 1] != '/');
                }
            }
            if end == n {
                return None;
            }
            start = end + 1;
        }
    }
}

/// The query encoding of a descriptor, read back through UTF-8, is the same
/// bytes: `from_query_string` applied to `query_text(d)` returns `d`.
pub proof fn lemma_query_round_trip(d: DescriptorModel)
    ensures
        encode_utf8(query_text(d)) == query_bytes(d),
{
    lemma_query_ascii(d);
    lemma_ascii_utf8(query_bytes(d));
    decode_utf8_encode_utf8(query_bytes(d));
}

} // verus!

verus! {

/// The first position at or after `from` that holds `c`, or the length.
pub open spec fn find_char(u: Seq<char>, c: char, from: int) -> int
    decreases u.len() - from,
{
    if from >= u.len() {
        u.len() as int
    } else if u[from] == c {
        from
    } else {
        find_char(u, c, from + 1)
    }
}

/// The query part of a request URL: what stands between its first `?` and
/// the next one, or the whole text when it holds no `?`.
pub open spec fn url_query(u: Seq<char>) -> Seq<char> {
    let i = find_char(u, '?', 0);
    if i == u.len() {
        u
    } else {
        u.subrange(i + 1, find_char(u, '?', i + 1))
    }
}

proof fn lemma_find_char_bounds(u: Seq<char>, c: char, from: int)
    requires
        0 <= from <= u.len(),
    ensures
        from <= find_char(u, c, from) <= u.len(),
    decreases u.len() - from,
{
    if from < u.len() && u[from] != c {
        lemma_find_char_bounds(u, c, from + 1);
    }
}

fn next_char(p: &str, start: usize, n: usize, c: char) -> (e: usize)
    requires
        start <= n == p@.len(),
    ensures
        e == find_char(p@, c, start as int),
{
    let mut i = start;
    while i < n && p.get_char(i) != c
        invariant
            start <= i <= n == p@.len(),
            find_char(p@, c, start as int) == find_char(p@, c, i as int),
        decreases n - i,
    {
        i = i + 1;
    }
    i
}

impl CachedImage {
    /// The request URL of this variant under a handler path:
    /// `<handler>?<query encoding>`.
    pub fn get_url_encoded(&self, handler_path: &str) -> (r: String)
        ensures
            r@ == handler_path@ + seq!['?'] + query_text(self@),
    {
        let q = self.query_string();
        proof {
            reveal_strlit("?");
        }
        let mut out = String::from_str(handler_path);
        out.append("?");
        out.append(q.as_str());
        out
    }

    /// Reads a descriptor from a request URL, or from a bare query string.
    pub fn from_url_encoded(url: &str) -> (r: Result<CachedImage, QueryError>)
        ensures
            r matches Ok(x) ==> query_bytes(x@) == encode_utf8(url_query(url@)),
            r is Err ==> forall|d: DescriptorModel| #[trigger]
                query_bytes(d) != encode_utf8(url_query(url@)),
            forall|d: DescriptorModel| #[trigger]
                query_bytes(d) == encode_utf8(url_query(url@)) ==> (r matches Ok(x) && x@ == d),
    {
        let n = url.unicode_len();
        let i = next_char(url, 0, n, '?');
        proof {
            lemma_find_char_bounds(url@, '?', 0);
        }
        if i == n {
            return CachedImage::from_query_string(url);
        }
        let j = next_char(url, i + 1, n, '?');
        proof {
            lemma_find_char_bounds(url@, '?', i + 1);
        }
        let qs = url.substring_char(i + 1, j);
        CachedImage::from_query_string(qs)
    }
}

} // verus!

verus! {

/// The decimal digits of a number as text.
pub open spec fn decimal_text(n: nat) -> Seq<char> {
    decimal(n).map_values(|b: u8| b as char)
}

/// The decimal digits of a number.
pub fn decimal_string(n: u32) -> (r: String)
    ensures
        r@ == decimal_text(n as nat),
{
    let mut v: Vec<u8> = Vec::new();
    push_decimal(&mut v, n);
    proof {
        assert(v@ =~= decimal(n as nat));
        lemma_decimal(n as nat);
        assert(all_ascii(v@));
        lemma_ascii_utf8(v@);
    }
    match utf8_string(v) {
        Some(s) => s,
        None => String::new(),
    }
}

} // verus!

verus! {

proof fn lemma_pct_no_question(u: Seq<u8>)
    ensures
        forall|i: int| 0 <= i < pct_encode(u).len() ==> pct_encode(u)[i] != 63,
    decreases u.len(),
{
    if u.len() > 0 {
        let p = u.drop_last();
        let x = u.last();
        lemma_pct_no_question(p);
        assert(x / 16 < 16 && x % 16 < 16);
        let e = pct_encode(u);
        assert forall|i: int| 0 <= i < e.len() implies e[i] != 63 by {
            if i < pct_encode(p).len() {
                assert(e[i] == pct_encode(p)[i]);
            } else {
                assert(e[i] == pct_byte(x)[i - pct_encode(p).len()]);
            }
        }
    }
}

proof fn lemma_num_field_no_question(kind: u8, name: Seq<u8>, n: nat, rest: Seq<u8>)
    requires
        kind != 63,
        forall|i: int| 0 <= i < name.len() ==> name[i] != 63,
        forall|i: int| 0 <= i < rest.len() ==> rest[i] != 63,
    ensures
        forall|i: int| 0 <= i < num_field(kind, name, n, rest).len() ==> num_field(kind, name, n, rest)[i] != 63,
{
    lemma_decimal(n);
    let f = num_field(kind, name, n, rest);
    let k = field_key(kind, name);
    assert forall|i: int| 0 <= i < f.len() implies f[i] != 63 by {
        if i < k.len() {
            assert(f[i] == k[i]);
            if 11 <= i < 11 + name.len() {
                assert(k[i] == name[i - 11]);
            }
        } else if i < k.len() + decimal(n).len() {
            assert(f[i] == decimal(n)[i - k.len()]);
        } else {
            assert(f[i] == rest[i - k.len() - decimal(n).len()]);
        }
    }
}

proof fn lemma_query_no_question(d: DescriptorModel)
    ensures
        forall|i: int| 0 <= i < query_bytes(d).len() ==> query_bytes(d)[i] != 63,
{
    let u = encode_utf8(d.0);
    lemma_pct_no_question(u);
    let o = option_query(d.1);
    assert forall|i: int| 0 <= i < o.len() implies o[i] != 63 by {
        match d.1 {
            CachedImageOption::Resize(r) => {
                let r2 = num_field(kind_resize(), name_q(), r.quality as nat, seq![]);
                lemma_num_field_no_question(kind_resize(), name_q(), r.quality as nat, seq![]);
                let r1 = num_field(kind_resize(), name_h(), r.height as nat, r2);
                lemma_num_field_no_question(kind_resize(), name_h(), r.height as nat, r2);
                lemma_num_field_no_question(kind_resize(), name_w(), r.width as nat, r1);
            },
            CachedImageOption::Blur(b) => {
                let r4 = num_field(kind_blur(), name_s(), b.sigma as nat, seq![]);
                lemma_num_field_no_question(kind_blur(), name_s(), b.sigma as nat, seq![]);
                let r3 = num_field(kind_blur(), name_sh(), b.svg_height as nat, r4);
                lemma_num_field_no_question(kind_blur(), name_sh(), b.svg_height as nat, r4);
                let r2 = num_field(kind_blur(), name_sw(), b.svg_width as nat, r3);
                lemma_num_field_no_question(kind_blur(), name_sw(), b.svg_width as nat, r3);
                let r1 = num_field(kind_blur(), name_h(), b.height as nat, r2);
                lemma_num_field_no_question(kind_blur(), name_h(), b.height as nat, r2);
                lemma_num_field_no_question(kind_blur(), name_w(), b.width as nat, r1);
            },
        }
    }
    let q = query_bytes(d);
    assert forall|i: int| 0 <= i < q.len() implies q[i] != 63 by {
        if i < 4 {
            assert(q[i] == key_src()[i]);
        } else if i < 4 + pct_encode(u).len() {
            assert(q[i] == pct_encode(u)[i - 4]);
        } else {
            assert(q[i] == o[i - 4 - pct_encode(u).len()]);
        }
    }
}

/// Past a stretch free of `c`, the search for `c` goes on unchanged.
proof fn lemma_find_char_skip(u: Seq<char>, c: char, from: int, to: int)
    requires
        0 <= from <= to <= u.len(),
        forall|k: int| from <= k < to ==> u[k] != c,
    ensures
        find_char(u, c, from) == find_char(u, c, to),
    decreases to - from,
{
    if from < to {
        lemma_find_char_skip(u, c, from + 1, to);
    }
}

/// A request URL made of a handler path without `?` and the query text of a
/// descriptor has that query text as its query part, so `from_url_encoded`
/// reads back the descriptor that `get_url_encoded` wrote.
pub proof fn lemma_url_round_trip(handler: Seq<char>, d: DescriptorModel)
    requires
        forall|i: int| 0 <= i < handler.len() ==> handler[i] != '?',
    ensures
        url_query(handler + seq!['?'] + query_text(d)) == query_text(d),
        encode_utf8(url_query(handler + seq!['?'] + query_text(d))) == query_bytes(d),
{
    let q = query_bytes(d);
    lemma_query_ascii(d);
    lemma_ascii_utf8(q);
    lemma_query_no_question(d);
    lemma_query_round_trip(d);
    let t = query_text(d);
    let u = handler + seq!['?'] + t;
    let h = handler.len() as int;
    assert forall|k: int| 0 <= k < t.len() implies t[k] != '?' by {
        assert(t[k] == q[k] as char);
        assert(q[k] != 63);
        assert(q[k] < 128);
    }
    lemma_find_char_skip(u, '?', 0, h);
    assert(u[h] == '?');
    assert(find_char(u, '?', h) == h);
    lemma_find_char_skip(u, '?', h + 1, u.len() as int);
    assert(u.subrange(h + 1, u.len() as int) =~= t);
}

} // verus!
