//! The wire codec for the broadcast envelope: one datagram is one
//! message in a fixed JSON-compatible textual form, with the field
//! names of the data model and `null` for absent optional fields. The
//! encoder produces exactly the canonical form; the decoder accepts
//! exactly the canonical form and rejects everything else, so a
//! malformed datagram is dropped.

use vstd::prelude::*;
use crate::types::{
    CommType, Communication, MotorDirection, Order, Role, Status, spec_comm_type_code, spec_comm_type_from_code, spec_hall_code,
    spec_hall_from_code, spec_motor_code, spec_motor_from_code, spec_role_code,
    spec_role_from_code, comm_type_code, comm_type_from_code, hall_direction_code,
    hall_direction_from_code, motor_direction_code, motor_direction_from_code, role_code,
    role_from_code,
};

verus! {

/// An ASCII decimal digit.
pub open spec fn is_digit(b: u8) -> bool {
    48 <= b <= 57
}

/// The canonical decimal form of a byte value: no leading zeros.
#[verifier::opaque]
pub open spec fn spec_dec_u8(n: u8) -> Seq<u8>
    decreases n,
{
    if n < 10 {
        seq![(48 + n) as u8]
    } else {
        spec_dec_u8(n / 10).push((48 + n % 10) as u8)
    }
}

/// Unfolds the canonical decimal form into its one, two or three
/// digits.
proof fn lemma_dec_digits(n: u8)
    ensures
        n < 10 ==> spec_dec_u8(n) == seq![(48 + n) as u8],
        10 <= n < 100 ==> spec_dec_u8(n) == seq![(48 + n / 10) as u8, (48 + n % 10) as u8],
        100 <= n ==> spec_dec_u8(n) == seq![
            (48 + n / 100) as u8,
            (48 + (n / 10) % 10) as u8,
            (48 + n % 10) as u8,
        ],
{
    reveal_with_fuel(spec_dec_u8, 4);
    if n < 10 {
    } else if n < 100 {
        assert(spec_dec_u8(n) == spec_dec_u8(n / 10).push((48 + n % 10) as u8));
        assert(n / 10 < 10);
        assert(spec_dec_u8(n / 10) == seq![(48 + n / 10) as u8]);
        assert(spec_dec_u8(n) =~= seq![(48 + n / 10) as u8, (48 + n % 10) as u8]);
    } else {
        assert(spec_dec_u8(n) == spec_dec_u8(n / 10).push((48 + n % 10) as u8));
        assert(10 <= n / 10 < 100);
        assert(spec_dec_u8(n / 10) == spec_dec_u8((n / 10) / 10).push((48 + (n / 10) % 10) as u8));
        assert((n / 10) / 10 == n / 100) by (nonlinear_arith);
        assert(n / 100 < 10);
        assert(spec_dec_u8(n / 100) == seq![(48 + n / 100) as u8]);
        assert(spec_dec_u8(n) =~= seq![
            (48 + n / 100) as u8,
            (48 + (n / 10) % 10) as u8,
            (48 + n % 10) as u8,
        ]);
    }
}

/// Every byte of the canonical decimal form is a digit, the first is
/// zero only for the value zero, and the form is one to three bytes.
proof fn lemma_dec_shape(n: u8)
    ensures
        1 <= spec_dec_u8(n).len() <= 3,
        forall|k: int| 0 <= k < spec_dec_u8(n).len() ==> is_digit(#[trigger] spec_dec_u8(n)[k]),
        spec_dec_u8(n)[0] == 48 <==> n == 0,
        n < 10 <==> spec_dec_u8(n).len() == 1,
        10 <= n < 100 <==> spec_dec_u8(n).len() == 2,
        100 <= n <==> spec_dec_u8(n).len() == 3,
{
    lemma_dec_digits(n);
    if n < 10 {
    } else if n < 100 {
        assert(n / 10 >= 1);
    } else {
        assert(n / 100 >= 1);
    }
}

/// The canonical decimal form of `v` sits at position `i` of `s`,
/// delimited by the end of the input or a byte that is not a digit.
pub open spec fn dec_at(s: Seq<u8>, i: int, v: u8) -> bool {
    &&& 0 <= i
    &&& i + spec_dec_u8(v).len() <= s.len()
    &&& s.subrange(i, i + spec_dec_u8(v).len()) == spec_dec_u8(v)
    &&& (i + spec_dec_u8(v).len() == s.len() || !is_digit(s[i + spec_dec_u8(v).len()]))
}

/// Parses a canonical decimal byte value at position `i`: one to three
/// digits, no leading zero, no digit following, value at most 255.
/// Returns the value and the position just past it. Exactly the
/// canonical forms are accepted: if any value's canonical form sits at
/// `i`, it is returned, and whatever is returned sits at `i`.
fn parse_u8_dec(s: &Vec<u8>, i: usize) -> (r: Option<(u8, usize)>)
    requires
        i <= s@.len(),
    ensures
        r matches Some(p) ==> dec_at(s@, i as int, p.0) && p.1 == i + spec_dec_u8(p.0).len(),
        forall|v: u8| dec_at(s@, i as int, v) ==> (r matches Some(p) && p.0 == v),
{
    let n = s.len();
    proof {
        assert forall|v: u8|
            #![trigger dec_at(s@, i as int, v)]
            dec_at(s@, i as int, v) implies i < s@.len() && is_digit(s@[i as int]) by {
            lemma_dec_shape(v);
            assert(s@.subrange(i as int, i + spec_dec_u8(v).len())[0] == s@[i as int]);
        }
    }
    if i >= n || s[i] < 48 || s[i] > 57 {
        return None;
    }
    let d0 = s[i] - 48;
    if d0 == 0 {
        // a single zero; a leading zero before another digit is not
        // canonical
        if i + 1 < n && s[i + 1] >= 48 && s[i + 1] <= 57 {
            proof {
                assert forall|v: u8| !dec_at(s@, i as int, v) by {
                    lemma_dec_shape(v);
                    lemma_dec_digits(v);
                    if dec_at(s@, i as int, v) {
                        assert(s@.subrange(i as int, i + spec_dec_u8(v).len())[0] == s@[i as int]);
                        assert(spec_dec_u8(v)[0] == 48);
                        assert(v == 0);
                        assert(spec_dec_u8(v).len() == 1);
                        assert(!is_digit(s@[i + 1]));
                    }
                }
            }
            return None;
        }
        proof {
            lemma_dec_digits(0);
            assert(s@.subrange(i as int, i + 1) =~= seq![48u8]);
            assert(dec_at(s@, i as int, 0));
            assert forall|v: u8| dec_at(s@, i as int, v) implies v == 0 by {
                lemma_dec_shape(v);
                assert(s@.subrange(i as int, i + spec_dec_u8(v).len())[0] == s@[i as int]);
            }
        }
        return Some((0, i + 1));
    }
    // first digit is 1..9
    if i + 1 >= n || s[i + 1] < 48 || s[i + 1] > 57 {
        proof {
            lemma_dec_digits(d0);
            assert(s@.subrange(i as int, i + 1) =~= seq![(48 + d0) as u8]);
            assert(dec_at(s@, i as int, d0));
            assert forall|v: u8| dec_at(s@, i as int, v) implies v == d0 by {
                lemma_dec_shape(v);
                lemma_dec_digits(v);
                assert(s@.subrange(i as int, i + spec_dec_u8(v).len())[0] == s@[i as int]);
                if spec_dec_u8(v).len() >= 2 {
                    assert(s@.subrange(i as int, i + spec_dec_u8(v).len())[1] == s@[i + 1]);
                    assert(is_digit(s@[i + 1]));
                }
            }
        }
        return Some((d0, i + 1));
    }
    let d1 = s[i + 1] - 48;
    if i + 2 >= n || s[i + 2] < 48 || s[i + 2] > 57 {
        let v2 = d0 * 10 + d1;
        proof {
            lemma_dec_digits(v2);
            assert(v2 / 10 == d0 && v2 % 10 == d1) by (nonlinear_arith)
                requires
                    1 <= d0 <= 9,
                    0 <= d1 <= 9,
                    v2 == d0 * 10 + d1,
            ;
            assert(s@.subrange(i as int, i + 2) =~= seq![(48 + d0) as u8, (48 + d1) as u8]);
            assert(dec_at(s@, i as int, v2));
            assert forall|v: u8| dec_at(s@, i as int, v) implies v == v2 by {
                lemma_dec_shape(v);
                lemma_dec_digits(v);
                assert(s@.subrange(i as int, i + spec_dec_u8(v).len())[0] == s@[i as int]);
                if spec_dec_u8(v).len() == 1 {
                    assert(!is_digit(s@[i + 1]));
                } else if spec_dec_u8(v).len() == 2 {
                    assert(s@.subrange(i as int, i + spec_dec_u8(v).len())[1] == s@[i + 1]);
                    assert(v / 10 == d0 && v % 10 == d1);
                    assert(v == v / 10 * 10 + v % 10);
                } else {
                    assert(s@.subrange(i as int, i + spec_dec_u8(v).len())[2] == s@[i + 2]);
                    assert(is_digit(s@[i + 2]));
                }
            }
        }
        return Some((v2, i + 2));
    }
    let d2 = s[i + 2] - 48;
    if i + 3 < n && s[i + 3] >= 48 && s[i + 3] <= 57 {
        // four digits in a row: not canonical for a byte value
        proof {
            assert forall|v: u8| !dec_at(s@, i as int, v) by {
                lemma_dec_shape(v);
                if dec_at(s@, i as int, v) {
                    assert(i + spec_dec_u8(v).len() <= i + 3);
                    assert(is_digit(s@[i + spec_dec_u8(v).len()]));
                }
            }
        }
        return None;
    }
    let wide: u16 = d0 as u16 * 100 + d1 as u16 * 10 + d2 as u16;
    if wide > 255 {
        proof {
            assert forall|v: u8| !dec_at(s@, i as int, v) by {
                lemma_dec_shape(v);
                lemma_dec_digits(v);
                if dec_at(s@, i as int, v) {
                    assert(s@.subrange(i as int, i + spec_dec_u8(v).len())[0] == s@[i as int]);
                    if spec_dec_u8(v).len() == 1 {
                        assert(!is_digit(s@[i + 1]));
                    } else if spec_dec_u8(v).len() == 2 {
                        assert(!is_digit(s@[i + 2]));
                    } else {
                        assert(s@.subrange(i as int, i + 3)[1] == s@[i + 1]);
                        assert(s@.subrange(i as int, i + 3)[2] == s@[i + 2]);
                        assert(v / 100 == d0 && (v / 10) % 10 == d1 && v % 10 == d2);
                        assert(v == v / 100 * 100 + (v / 10) % 10 * 10 + v % 10) by (
                        nonlinear_arith);
                        assert(wide <= 255);
                    }
                }
            }
        }
        return None;
    }
    let v3 = wide as u8;
    proof {
        lemma_dec_digits(v3);
        assert(v3 / 100 == d0 && (v3 / 10) % 10 == d1 && v3 % 10 == d2) by (nonlinear_arith)
            requires
                1 <= d0 <= 9,
                0 <= d1 <= 9,
                0 <= d2 <= 9,
                wide == d0 * 100 + d1 * 10 + d2,
                wide <= 255,
                v3 == wide,
        ;
        assert(100 <= v3);
        assert(s@.subrange(i as int, i + 3) =~= seq![
            (48 + d0) as u8,
            (48 + d1) as u8,
            (48 + d2) as u8,
        ]);
        assert(dec_at(s@, i as int, v3));
        assert forall|v: u8| dec_at(s@, i as int, v) implies v == v3 by {
            lemma_dec_shape(v);
            lemma_dec_digits(v);
            assert(s@.subrange(i as int, i + spec_dec_u8(v).len())[0] == s@[i as int]);
            if spec_dec_u8(v).len() == 1 {
                assert(!is_digit(s@[i + 1]));
            } else if spec_dec_u8(v).len() == 2 {
                assert(s@.subrange(i as int, i + 2)[1] == s@[i + 1]);
                assert(!is_digit(s@[i + 2]));
            } else {
                assert(s@.subrange(i as int, i + 3)[1] == s@[i + 1]);
                assert(s@.subrange(i as int, i + 3)[2] == s@[i + 2]);
                assert(v / 100 == d0 && (v / 10) % 10 == d1 && v % 10 == d2);
                assert(v == v / 100 * 100 + (v / 10) % 10 * 10 + v % 10) by (nonlinear_arith);
            }
        }
    }
    Some((v3, i + 3))
}

/// Appends the canonical decimal form of `n`.
fn push_u8_dec(out: &mut Vec<u8>, n: u8)
    ensures
        final(out)@ == old(out)@ + spec_dec_u8(n),
{
    let ghost base = out@;
    proof {
        lemma_dec_digits(n);
    }
    if n < 10 {
        out.push(48 + n);
        proof {
            assert(out@ =~= base + spec_dec_u8(n));
        }
    } else if n < 100 {
        out.push(48 + n / 10);
        out.push(48 + n % 10);
        proof {
            assert(out@ =~= base + spec_dec_u8(n));
        }
    } else {
        out.push(48 + n / 100);
        out.push(48 + (n / 10) % 10);
        out.push(48 + n % 10);
        proof {
            assert(out@ =~= base + spec_dec_u8(n));
        }
    }
}

/// `{"floor_number":`
pub open spec fn lit_floor_number() -> Seq<u8> {
    seq![123u8, 34, 102, 108, 111, 111, 114, 95, 110, 117, 109, 98, 101, 114, 34, 58]
}

/// `,"direction":`
pub open spec fn lit_direction() -> Seq<u8> {
    seq![44u8, 34, 100, 105, 114, 101, 99, 116, 105, 111, 110, 34, 58]
}

/// `{"last_floor":`
pub open spec fn lit_last_floor() -> Seq<u8> {
    seq![123u8, 34, 108, 97, 115, 116, 95, 102, 108, 111, 111, 114, 34, 58]
}

/// `,"errors":`
pub open spec fn lit_errors() -> Seq<u8> {
    seq![44u8, 34, 101, 114, 114, 111, 114, 115, 34, 58]
}

/// `,"obstructions":`
pub open spec fn lit_obstructions() -> Seq<u8> {
    seq![44u8, 34, 111, 98, 115, 116, 114, 117, 99, 116, 105, 111, 110, 115, 34, 58]
}

/// `,"target_floor":`
pub open spec fn lit_target_floor() -> Seq<u8> {
    seq![44u8, 34, 116, 97, 114, 103, 101, 116, 95, 102, 108, 111, 111, 114, 34, 58]
}

/// `{"sender":`
pub open spec fn lit_sender() -> Seq<u8> {
    seq![123u8, 34, 115, 101, 110, 100, 101, 114, 34, 58]
}

/// `,"sender_role":`
pub open spec fn lit_sender_role() -> Seq<u8> {
    seq![44u8, 34, 115, 101, 110, 100, 101, 114, 95, 114, 111, 108, 101, 34, 58]
}

/// `,"target":`
pub open spec fn lit_target() -> Seq<u8> {
    seq![44u8, 34, 116, 97, 114, 103, 101, 116, 34, 58]
}

/// `,"comm_type":`
pub open spec fn lit_comm_type() -> Seq<u8> {
    seq![44u8, 34, 99, 111, 109, 109, 95, 116, 121, 112, 101, 34, 58]
}

/// `,"status":`
pub open spec fn lit_status() -> Seq<u8> {
    seq![44u8, 34, 115, 116, 97, 116, 117, 115, 34, 58]
}

/// `,"order":`
pub open spec fn lit_order() -> Seq<u8> {
    seq![44u8, 34, 111, 114, 100, 101, 114, 34, 58]
}

/// `null`
pub open spec fn lit_null() -> Seq<u8> {
    seq![110u8, 117, 108, 108]
}

/// `true`
pub open spec fn lit_true() -> Seq<u8> {
    seq![116u8, 114, 117, 101]
}

/// `false`
pub open spec fn lit_false() -> Seq<u8> {
    seq![102u8, 97, 108, 115, 101]
}

/// The booleans in their textual form.
pub open spec fn spec_enc_bool(b: bool) -> Seq<u8> {
    if b {
        lit_true()
    } else {
        lit_false()
    }
}

/// An optional byte value: `null` or its canonical decimal form.
pub open spec fn spec_enc_opt_u8(o: Option<u8>) -> Seq<u8> {
    match o {
        None => lit_null(),
        Some(v) => spec_dec_u8(v),
    }
}

/// The canonical form of an order.
#[verifier::opaque]
pub open spec fn spec_encode_order(o: Order) -> Seq<u8> {
    lit_floor_number() + (spec_dec_u8(o.floor_number) + (lit_direction() + (spec_dec_u8(
        spec_hall_code(o.direction),
    ) + seq![125u8])))
}

/// Whether the bytes `w` sit at position `i` of `s`.
pub open spec fn bytes_at(s: Seq<u8>, i: int, w: Seq<u8>) -> bool {
    0 <= i && i + w.len() <= s.len() && s.subrange(i, i + w.len()) == w
}

/// Compares the bytes at position `i` with `w`.
fn match_at(s: &Vec<u8>, i: usize, w: &Vec<u8>) -> (r: bool)
    requires
        i <= s@.len(),
    ensures
        r == bytes_at(s@, i as int, w@),
{
    if s.len() - i < w.len() {
        proof {
            assert(!bytes_at(s@, i as int, w@));
        }
        return false;
    }
    let mut k: usize = 0;
    while k < w.len()
        invariant
            k <= w@.len(),
            i + w@.len() <= s@.len(),
            s@.len() <= usize::MAX,
            forall|q: int| 0 <= q < k ==> s@[i + q] == w@[q],
        decreases w@.len() - k,
    {
        proof {
            assert(i + k < s@.len());
        }
        if s[i + k] != w[k] {
            proof {
                assert(s@.subrange(i as int, i + w@.len())[k as int] == s@[i + k]);
                assert(!bytes_at(s@, i as int, w@));
            }
            return false;
        }
        k = k + 1;
    }
    proof {
        assert(s@.subrange(i as int, i + w@.len()) =~= w@);
    }
    true
}

/// Appends all of `w`.
fn append_vec(out: &mut Vec<u8>, w: &Vec<u8>)
    ensures
        final(out)@ == old(out)@ + w@,
{
    let ghost base = out@;
    let mut k: usize = 0;
    while k < w.len()
        invariant
            k <= w@.len(),
            out@ == base + w@.subrange(0, k as int),
        decreases w@.len() - k,
    {
        out.push(w[k]);
        proof {
            assert(out@ =~= base + w@.subrange(0, k + 1));
        }
        k = k + 1;
    }
    proof {
        assert(out@ =~= base + w@);
    }
}

/// Builds the bytes of `lit_floor_number`.
fn lit_vec_floor_number() -> (r: Vec<u8>)
    ensures
        r@ == lit_floor_number(),
{
    let mut v: Vec<u8> = Vec::new();
    v.push(123);
    v.push(34);
    v.push(102);
    v.push(108);
    v.push(111);
    v.push(111);
    v.push(114);
    v.push(95);
    v.push(110);
    v.push(117);
    v.push(109);
    v.push(98);
    v.push(101);
    v.push(114);
    v.push(34);
    v.push(58);
    proof {
        assert(v@ =~= lit_floor_number());
    }
    v
}

/// Builds the bytes of `lit_direction`.
fn lit_vec_direction() -> (r: Vec<u8>)
    ensures
        r@ == lit_direction(),
{
    let mut v: Vec<u8> = Vec::new();
    v.push(44);
    v.push(34);
    v.push(100);
    v.push(105);
    v.push(114);
    v.push(101);
    v.push(99);
    v.push(116);
    v.push(105);
    v.push(111);
    v.push(110);
    v.push(34);
    v.push(58);
    proof {
        assert(v@ =~= lit_direction());
    }
    v
}

/// Builds the bytes of `lit_last_floor`.
fn lit_vec_last_floor() -> (r: Vec<u8>)
    ensures
        r@ == lit_last_floor(),
{
    let mut v: Vec<u8> = Vec::new();
    v.push(123);
    v.push(34);
    v.push(108);
    v.push(97);
    v.push(115);
    v.push(116);
    v.push(95);
    v.push(102);
    v.push(108);
    v.push(111);
    v.push(111);
    v.push(114);
    v.push(34);
    v.push(58);
    proof {
        assert(v@ =~= lit_last_floor());
    }
    v
}

/// Builds the bytes of `lit_errors`.
fn lit_vec_errors() -> (r: Vec<u8>)
    ensures
        r@ == lit_errors(),
{
    let mut v: Vec<u8> = Vec::new();
    v.push(44);
    v.push(34);
    v.push(101);
    v.push(114);
    v.push(114);
    v.push(111);
    v.push(114);
    v.push(115);
    v.push(34);
    v.push(58);
    proof {
        assert(v@ =~= lit_errors());
    }
    v
}

/// Builds the bytes of `lit_obstructions`.
fn lit_vec_obstructions() -> (r: Vec<u8>)
    ensures
        r@ == lit_obstructions(),
{
    let mut v: Vec<u8> = Vec::new();
    v.push(44);
    v.push(34);
    v.push(111);
    v.push(98);
    v.push(115);
    v.push(116);
    v.push(114);
    v.push(117);
    v.push(99);
    v.push(116);
    v.push(105);
    v.push(111);
    v.push(110);
    v.push(115);
    v.push(34);
    v.push(58);
    proof {
        assert(v@ =~= lit_obstructions());
    }
    v
}

/// Builds the bytes of `lit_target_floor`.
fn lit_vec_target_floor() -> (r: Vec<u8>)
    ensures
        r@ == lit_target_floor(),
{
    let mut v: Vec<u8> = Vec::new();
    v.push(44);
    v.push(34);
    v.push(116);
    v.push(97);
    v.push(114);
    v.push(103);
    v.push(101);
    v.push(116);
    v.push(95);
    v.push(102);
    v.push(108);
    v.push(111);
    v.push(111);
    v.push(114);
    v.push(34);
    v.push(58);
    proof {
        assert(v@ =~= lit_target_floor());
    }
    v
}

/// Builds the bytes of `lit_sender`.
fn lit_vec_sender() -> (r: Vec<u8>)
    ensures
        r@ == lit_sender(),
{
    let mut v: Vec<u8> = Vec::new();
    v.push(123);
    v.push(34);
    v.push(115);
    v.push(101);
    v.push(110);
    v.push(100);
    v.push(101);
    v.push(114);
    v.push(34);
    v.push(58);
    proof {
        assert(v@ =~= lit_sender());
    }
    v
}

/// Builds the bytes of `lit_sender_role`.
fn lit_vec_sender_role() -> (r: Vec<u8>)
    ensures
        r@ == lit_sender_role(),
{
    let mut v: Vec<u8> = Vec::new();
    v.push(44);
    v.push(34);
    v.push(115);
    v.push(101);
    v.push(110);
    v.push(100);
    v.push(101);
    v.push(114);
    v.push(95);
    v.push(114);
    v.push(111);
    v.push(108);
    v.push(101);
    v.push(34);
    v.push(58);
    proof {
        assert(v@ =~= lit_sender_role());
    }
    v
}

/// Builds the bytes of `lit_target`.
fn lit_vec_target() -> (r: Vec<u8>)
    ensures
        r@ == lit_target(),
{
    let mut v: Vec<u8> = Vec::new();
    v.push(44);
    v.push(34);
    v.push(116);
    v.push(97);
    v.push(114);
    v.push(103);
    v.push(101);
    v.push(116);
    v.push(34);
    v.push(58);
    proof {
        assert(v@ =~= lit_target());
    }
    v
}

/// Builds the bytes of `lit_comm_type`.
fn lit_vec_comm_type() -> (r: Vec<u8>)
    ensures
        r@ == lit_comm_type(),
{
    let mut v: Vec<u8> = Vec::new();
    v.push(44);
    v.push(34);
    v.push(99);
    v.push(111);
    v.push(109);
    v.push(109);
    v.push(95);
    v.push(116);
    v.push(121);
    v.push(112);
    v.push(101);
    v.push(34);
    v.push(58);
    proof {
        assert(v@ =~= lit_comm_type());
    }
    v
}

/// Builds the bytes of `lit_status`.
fn lit_vec_status() -> (r: Vec<u8>)
    ensures
        r@ == lit_status(),
{
    let mut v: Vec<u8> = Vec::new();
    v.push(44);
    v.push(34);
    v.push(115);
    v.push(116);
    v.push(97);
    v.push(116);
    v.push(117);
    v.push(115);
    v.push(34);
    v.push(58);
    proof {
        assert(v@ =~= lit_status());
    }
    v
}

/// Builds the bytes of `lit_order`.
fn lit_vec_order() -> (r: Vec<u8>)
    ensures
        r@ == lit_order(),
{
    let mut v: Vec<u8> = Vec::new();
    v.push(44);
    v.push(34);
    v.push(111);
    v.push(114);
    v.push(100);
    v.push(101);
    v.push(114);
    v.push(34);
    v.push(58);
    proof {
        assert(v@ =~= lit_order());
    }
    v
}

/// Builds the bytes of `lit_null`.
fn lit_vec_null() -> (r: Vec<u8>)
    ensures
        r@ == lit_null(),
{
    let mut v: Vec<u8> = Vec::new();
    v.push(110);
    v.push(117);
    v.push(108);
    v.push(108);
    proof {
        assert(v@ =~= lit_null());
    }
    v
}

/// Builds the bytes of `lit_true`.
fn lit_vec_true() -> (r: Vec<u8>)
    ensures
        r@ == lit_true(),
{
    let mut v: Vec<u8> = Vec::new();
    v.push(116);
    v.push(114);
    v.push(117);
    v.push(101);
    proof {
        assert(v@ =~= lit_true());
    }
    v
}

/// Builds the bytes of `lit_false`.
fn lit_vec_false() -> (r: Vec<u8>)
    ensures
        r@ == lit_false(),
{
    let mut v: Vec<u8> = Vec::new();
    v.push(102);
    v.push(97);
    v.push(108);
    v.push(115);
    v.push(101);
    proof {
        assert(v@ =~= lit_false());
    }
    v
}

/// Splitting a byte match over a concatenation.
proof fn lemma_bytes_at_split(s: Seq<u8>, i: int, a: Seq<u8>, b: Seq<u8>)
    requires
        bytes_at(s, i, a + b),
    ensures
        bytes_at(s, i, a),
        bytes_at(s, i + a.len(), b),
{
    assert(s.subrange(i, i + a.len()) =~= a) by {
        assert forall|q: int| 0 <= q < a.len() implies s.subrange(i, i + a.len())[q] == a[q] by {
            assert(s.subrange(i, i + (a + b).len())[q] == (a + b)[q]);
        }
    }
    assert(s.subrange(i + a.len(), i + a.len() + b.len()) =~= b) by {
        assert forall|q: int|
            0 <= q < b.len() implies s.subrange(i + a.len(), i + a.len() + b.len())[q] == b[q] by {
            assert(s.subrange(i, i + (a + b).len())[a.len() + q] == (a + b)[a.len() + q]);
        }
    }
}

/// A decimal form followed by a non-digit byte is a delimited decimal.
proof fn lemma_dec_at_from_bytes(s: Seq<u8>, i: int, v: u8, rest: Seq<u8>)
    requires
        bytes_at(s, i, spec_dec_u8(v) + rest),
        rest.len() > 0,
        !is_digit(rest[0]),
    ensures
        dec_at(s, i, v),
{
    lemma_bytes_at_split(s, i, spec_dec_u8(v), rest);
    assert(s.subrange(i + spec_dec_u8(v).len(), i + spec_dec_u8(v).len() + rest.len())[0] == s[i
        + spec_dec_u8(v).len()]);
}

/// Appends the canonical form of an order.
fn encode_order_into(out: &mut Vec<u8>, o: &Order)
    ensures
        final(out)@ == old(out)@ + spec_encode_order(*o),
{
    let ghost base = out@;
    let lfn = lit_vec_floor_number();
    append_vec(out, &lfn);
    push_u8_dec(out, o.floor_number);
    let ld = lit_vec_direction();
    append_vec(out, &ld);
    push_u8_dec(out, hall_direction_code(o.direction));
    out.push(125);
    proof {
        reveal(spec_encode_order);
        assert(out@ =~= base + spec_encode_order(*o));
    }
}

/// Parses an order at position `i`: exactly the canonical forms are
/// accepted.
#[verifier::rlimit(50)]
fn parse_order(s: &Vec<u8>, i: usize) -> (r: Option<(Order, usize)>)
    requires
        i <= s@.len(),
    ensures
        r matches Some(p) ==> bytes_at(s@, i as int, spec_encode_order(p.0)) && p.1 == i
            + spec_encode_order(p.0).len(),
        forall|o: Order|
            bytes_at(s@, i as int, spec_encode_order(o)) ==> (r matches Some(p) && p.0 == o),
{
    proof {
        assert forall|o: Order|
            bytes_at(s@, i as int, spec_encode_order(o)) implies bytes_at(
            s@,
            i as int,
            lit_floor_number(),
        ) && dec_at(s@, i + lit_floor_number().len(), o.floor_number) by {
            reveal(spec_encode_order);
            let tail1 = spec_dec_u8(o.floor_number) + (lit_direction() + (spec_dec_u8(
                spec_hall_code(o.direction),
            ) + seq![125u8]));
            lemma_bytes_at_split(s@, i as int, lit_floor_number(), tail1);
            let tail2 = lit_direction() + (spec_dec_u8(spec_hall_code(o.direction)) + seq![125u8]);
            lemma_dec_at_from_bytes(s@, i + lit_floor_number().len(), o.floor_number, tail2);
        }
    }
    let n = s.len();
    let lfn = lit_vec_floor_number();
    if !match_at(s, i, &lfn) {
        return None;
    }
    proof {
        assert(i + lfn@.len() <= n);
    }
    let j = i + lfn.len();
    let (floor, j2) = match parse_u8_dec(s, j) {
        Some(p) => p,
        None => {
            return None;
        },
    };
    proof {
        assert forall|o: Order|
            bytes_at(s@, i as int, spec_encode_order(o)) implies o.floor_number == floor
            && bytes_at(s@, j2 as int, lit_direction()) && dec_at(
            s@,
            j2 + lit_direction().len(),
            spec_hall_code(o.direction),
        ) by {
            reveal(spec_encode_order);
            let tail1 = spec_dec_u8(o.floor_number) + (lit_direction() + (spec_dec_u8(
                spec_hall_code(o.direction),
            ) + seq![125u8]));
            lemma_bytes_at_split(s@, i as int, lit_floor_number(), tail1);
            let tail2 = lit_direction() + (spec_dec_u8(spec_hall_code(o.direction)) + seq![125u8]);
            lemma_bytes_at_split(s@, j as int, spec_dec_u8(o.floor_number), tail2);
            let tail3 = spec_dec_u8(spec_hall_code(o.direction)) + seq![125u8];
            lemma_bytes_at_split(s@, j + spec_dec_u8(o.floor_number).len(), lit_direction(), tail3);
            lemma_dec_at_from_bytes(
                s@,
                j + spec_dec_u8(o.floor_number).len() + lit_direction().len(),
                spec_hall_code(o.direction),
                seq![125u8],
            );
        }
    }
    let ld = lit_vec_direction();
    if !match_at(s, j2, &ld) {
        return None;
    }
    proof {
        assert(j2 + ld@.len() <= n);
    }
    let j3 = j2 + ld.len();
    let (code, j4) = match parse_u8_dec(s, j3) {
        Some(p) => p,
        None => {
            return None;
        },
    };
    let dir = match hall_direction_from_code(code) {
        Some(d) => d,
        None => {
            proof {
                assert forall|o: Order| !bytes_at(s@, i as int, spec_encode_order(o)) by {
                    if bytes_at(s@, i as int, spec_encode_order(o)) {
                        assert(code == spec_hall_code(o.direction));
                        assert(spec_hall_from_code(code) is Some);
                    }
                }
            }
            return None;
        },
    };
    if j4 >= s.len() || s[j4] != 125 {
        proof {
            assert forall|o: Order| !bytes_at(s@, i as int, spec_encode_order(o)) by {
                if bytes_at(s@, i as int, spec_encode_order(o)) {
                    reveal(spec_encode_order);
                    assert(code == spec_hall_code(o.direction));
                    let e = spec_encode_order(o);
                    assert(s@.subrange(i as int, i + e.len())[e.len() - 1] == s@[i + e.len()
                        - 1]);
                    assert(e[e.len() - 1] == 125);
                    assert(j4 == i + e.len() - 1);
                }
            }
        }
        return None;
    }
    let o = Order { floor_number: floor, direction: dir };
    proof {
        reveal(spec_encode_order);
        assert(spec_hall_code(dir) == code);
        let e = spec_encode_order(o);
        assert(s@.subrange(i as int, j4 + 1) =~= e);
        assert(bytes_at(s@, i as int, e));
        assert forall|o2: Order|
            bytes_at(s@, i as int, spec_encode_order(o2)) implies o2 == o by {
            assert(o2.floor_number == floor);
            assert(spec_hall_code(o2.direction) == code);
        }
    }
    Some((o, j4 + 1))
}

/// An optional byte value sits at position `i`: `null`, or a delimited
/// canonical decimal.
pub open spec fn opt_u8_at(s: Seq<u8>, i: int, o: Option<u8>) -> bool {
    match o {
        None => bytes_at(s, i, lit_null()),
        Some(v) => dec_at(s, i, v),
    }
}

/// Parses `true` or `false`.
fn parse_bool(s: &Vec<u8>, i: usize) -> (r: Option<(bool, usize)>)
    requires
        i <= s@.len(),
    ensures
        r matches Some(p) ==> bytes_at(s@, i as int, spec_enc_bool(p.0)) && p.1 == i
            + spec_enc_bool(p.0).len(),
        forall|b: bool|
            bytes_at(s@, i as int, spec_enc_bool(b)) ==> (r matches Some(p) && p.0 == b),
{
    let n = s.len();
    let lt = lit_vec_true();
    let lf = lit_vec_false();
    if match_at(s, i, &lt) {
        proof {
            assert(i + 4 <= n);
        }
        proof {
            if bytes_at(s@, i as int, spec_enc_bool(false)) {
                assert(s@.subrange(i as int, i + lit_false().len())[0] == s@[i as int]);
                assert(s@.subrange(i as int, i + lit_true().len())[0] == s@[i as int]);
                assert(false);
            }
        }
        Some((true, i + 4))
    } else if match_at(s, i, &lf) {
        proof {
            assert(i + 5 <= n);
        }
        Some((false, i + 5))
    } else {
        None
    }
}

/// Parses `null` or a delimited canonical decimal.
fn parse_opt_u8(s: &Vec<u8>, i: usize) -> (r: Option<(Option<u8>, usize)>)
    requires
        i <= s@.len(),
    ensures
        r matches Some(p) ==> opt_u8_at(s@, i as int, p.0) && p.1 == i + spec_enc_opt_u8(
            p.0,
        ).len(),
        forall|o: Option<u8>|
            opt_u8_at(s@, i as int, o) ==> (r matches Some(p) && p.0 == o),
{
    let n = s.len();
    let ln = lit_vec_null();
    if match_at(s, i, &ln) {
        proof {
            assert(i + 4 <= n);
            assert forall|o: Option<u8>| opt_u8_at(s@, i as int, o) implies o is None by {
                match o {
                    Some(v) => {
                        lemma_dec_shape(v);
                        assert(s@.subrange(i as int, i + spec_dec_u8(v).len())[0] == s@[i as int]);
                        assert(s@.subrange(i as int, i + lit_null().len())[0] == s@[i as int]);
                    },
                    None => {
                    },
                }
            }
        }
        Some((None, i + 4))
    } else {
        match parse_u8_dec(s, i) {
            Some((v, j)) => {
                proof {
                    assert forall|o: Option<u8>| opt_u8_at(s@, i as int, o) implies o == Some(
                        v,
                    ) by {
                        if o is None {
                            assert(bytes_at(s@, i as int, lit_null()));
                        }
                    }
                }
                Some((Some(v), j))
            },
            None => {
                proof {
                    assert forall|o: Option<u8>| !opt_u8_at(s@, i as int, o) by {
                        if opt_u8_at(s@, i as int, o) {
                            if o is None {
                                assert(bytes_at(s@, i as int, lit_null()));
                            }
                        }
                    }
                }
                None
            },
        }
    }
}

/// The canonical form of a status.
#[verifier::opaque]
pub open spec fn spec_encode_status(st: Status) -> Seq<u8> {
    lit_last_floor() + (spec_dec_u8(st.last_floor) + (lit_direction() + (spec_dec_u8(
        spec_motor_code(st.direction),
    ) + (lit_errors() + (spec_enc_bool(st.errors) + (lit_obstructions() + (spec_enc_bool(
        st.obstructions,
    ) + (lit_target_floor() + (spec_enc_opt_u8(st.target_floor) + seq![125u8])))))))))
}

/// Where each field of a status encoding sits, relative to `i`.
pub open spec fn st_off1(i: int, st: Status) -> int {
    i + lit_last_floor().len()
}

pub open spec fn st_off2(i: int, st: Status) -> int {
    st_off1(i, st) + spec_dec_u8(st.last_floor).len()
}

pub open spec fn st_off3(i: int, st: Status) -> int {
    st_off2(i, st) + lit_direction().len()
}

pub open spec fn st_off4(i: int, st: Status) -> int {
    st_off3(i, st) + spec_dec_u8(spec_motor_code(st.direction)).len()
}

pub open spec fn st_off5(i: int, st: Status) -> int {
    st_off4(i, st) + lit_errors().len()
}

pub open spec fn st_off6(i: int, st: Status) -> int {
    st_off5(i, st) + spec_enc_bool(st.errors).len()
}

pub open spec fn st_off7(i: int, st: Status) -> int {
    st_off6(i, st) + lit_obstructions().len()
}

pub open spec fn st_off8(i: int, st: Status) -> int {
    st_off7(i, st) + spec_enc_bool(st.obstructions).len()
}

pub open spec fn st_off9(i: int, st: Status) -> int {
    st_off8(i, st) + lit_target_floor().len()
}

pub open spec fn st_off10(i: int, st: Status) -> int {
    st_off9(i, st) + spec_enc_opt_u8(st.target_floor).len()
}

/// Unpacks a status encoding into its delimited fields.
#[verifier::rlimit(100)]
proof fn lemma_status_parts(s: Seq<u8>, i: int, st: Status)
    requires
        bytes_at(s, i, spec_encode_status(st)),
    ensures
        bytes_at(s, i, lit_last_floor()),
        dec_at(s, st_off1(i, st), st.last_floor),
        bytes_at(s, st_off2(i, st), lit_direction()),
        dec_at(s, st_off3(i, st), spec_motor_code(st.direction)),
        bytes_at(s, st_off4(i, st), lit_errors()),
        bytes_at(s, st_off5(i, st), spec_enc_bool(st.errors)),
        bytes_at(s, st_off6(i, st), lit_obstructions()),
        bytes_at(s, st_off7(i, st), spec_enc_bool(st.obstructions)),
        bytes_at(s, st_off8(i, st), lit_target_floor()),
        opt_u8_at(s, st_off9(i, st), st.target_floor),
        st_off10(i, st) < s.len(),
        s[st_off10(i, st)] == 125,
        st_off10(i, st) + 1 == i + spec_encode_status(st).len(),
{
    reveal(spec_encode_status);
    let t1 = spec_dec_u8(st.last_floor) + (lit_direction() + (spec_dec_u8(
        spec_motor_code(st.direction),
    ) + (lit_errors() + (spec_enc_bool(st.errors) + (lit_obstructions() + (spec_enc_bool(
        st.obstructions,
    ) + (lit_target_floor() + (spec_enc_opt_u8(st.target_floor) + seq![125u8]))))))));
    lemma_bytes_at_split(s, i, lit_last_floor(), t1);
    let t2 = lit_direction() + (spec_dec_u8(spec_motor_code(st.direction)) + (lit_errors() + (
    spec_enc_bool(st.errors) + (lit_obstructions() + (spec_enc_bool(st.obstructions) + (
    lit_target_floor() + (spec_enc_opt_u8(st.target_floor) + seq![125u8])))))));
    lemma_bytes_at_split(s, st_off1(i, st), spec_dec_u8(st.last_floor), t2);
    lemma_dec_at_from_bytes(s, st_off1(i, st), st.last_floor, t2);
    let t3 = spec_dec_u8(spec_motor_code(st.direction)) + (lit_errors() + (spec_enc_bool(
        st.errors,
    ) + (lit_obstructions() + (spec_enc_bool(st.obstructions) + (lit_target_floor() + (
    spec_enc_opt_u8(st.target_floor) + seq![125u8]))))));
    lemma_bytes_at_split(s, st_off2(i, st), lit_direction(), t3);
    let t4 = lit_errors() + (spec_enc_bool(st.errors) + (lit_obstructions() + (spec_enc_bool(
        st.obstructions,
    ) + (lit_target_floor() + (spec_enc_opt_u8(st.target_floor) + seq![125u8])))));
    lemma_bytes_at_split(s, st_off3(i, st), spec_dec_u8(spec_motor_code(st.direction)), t4);
    lemma_dec_at_from_bytes(s, st_off3(i, st), spec_motor_code(st.direction), t4);
    let t5 = spec_enc_bool(st.errors) + (lit_obstructions() + (spec_enc_bool(st.obstructions) + (
    lit_target_floor() + (spec_enc_opt_u8(st.target_floor) + seq![125u8]))));
    lemma_bytes_at_split(s, st_off4(i, st), lit_errors(), t5);
    let t6 = lit_obstructions() + (spec_enc_bool(st.obstructions) + (lit_target_floor() + (
    spec_enc_opt_u8(st.target_floor) + seq![125u8])));
    lemma_bytes_at_split(s, st_off5(i, st), spec_enc_bool(st.errors), t6);
    let t7 = spec_enc_bool(st.obstructions) + (lit_target_floor() + (spec_enc_opt_u8(
        st.target_floor,
    ) + seq![125u8]));
    lemma_bytes_at_split(s, st_off6(i, st), lit_obstructions(), t7);
    let t8 = lit_target_floor() + (spec_enc_opt_u8(st.target_floor) + seq![125u8]);
    lemma_bytes_at_split(s, st_off7(i, st), spec_enc_bool(st.obstructions), t8);
    let t9 = spec_enc_opt_u8(st.target_floor) + seq![125u8];
    lemma_bytes_at_split(s, st_off8(i, st), lit_target_floor(), t9);
    lemma_bytes_at_split(s, st_off9(i, st), spec_enc_opt_u8(st.target_floor), seq![125u8]);
    assert(s.subrange(st_off10(i, st), st_off10(i, st) + 1)[0] == s[st_off10(i, st)]);
    match st.target_floor {
        None => {
        },
        Some(v) => {
            lemma_dec_at_from_bytes(s, st_off9(i, st), v, seq![125u8]);
        },
    }
}


/// Reassembles a status encoding from its delimited fields.
#[verifier::rlimit(100)]
proof fn lemma_status_assemble(s: Seq<u8>, i: int, st: Status, end: int)
    requires
        bytes_at(s, i, lit_last_floor()),
        dec_at(s, st_off1(i, st), st.last_floor),
        bytes_at(s, st_off2(i, st), lit_direction()),
        dec_at(s, st_off3(i, st), spec_motor_code(st.direction)),
        bytes_at(s, st_off4(i, st), lit_errors()),
        bytes_at(s, st_off5(i, st), spec_enc_bool(st.errors)),
        bytes_at(s, st_off6(i, st), lit_obstructions()),
        bytes_at(s, st_off7(i, st), spec_enc_bool(st.obstructions)),
        bytes_at(s, st_off8(i, st), lit_target_floor()),
        opt_u8_at(s, st_off9(i, st), st.target_floor),
        st_off10(i, st) < s.len(),
        s[st_off10(i, st)] == 125,
        end == st_off10(i, st) + 1,
    ensures
        bytes_at(s, i, spec_encode_status(st)),
        end == i + spec_encode_status(st).len(),
{
    reveal(spec_encode_status);
    match st.target_floor {
        None => {
        },
        Some(v) => {
        },
    }
    assert(s.subrange(i, end) =~= spec_encode_status(st));
}

/// Appends the canonical form of a status.
#[verifier::rlimit(100)]
fn encode_status_into(out: &mut Vec<u8>, st: &Status)
    ensures
        final(out)@ == old(out)@ + spec_encode_status(*st),
{
    let ghost base = out@;
    let l1 = lit_vec_last_floor();
    append_vec(out, &l1);
    push_u8_dec(out, st.last_floor);
    let l2 = lit_vec_direction();
    append_vec(out, &l2);
    push_u8_dec(out, motor_direction_code(st.direction));
    let l3 = lit_vec_errors();
    append_vec(out, &l3);
    let lb = if st.errors {
        lit_vec_true()
    } else {
        lit_vec_false()
    };
    append_vec(out, &lb);
    let l4 = lit_vec_obstructions();
    append_vec(out, &l4);
    let lb2 = if st.obstructions {
        lit_vec_true()
    } else {
        lit_vec_false()
    };
    append_vec(out, &lb2);
    let l5 = lit_vec_target_floor();
    append_vec(out, &l5);
    match st.target_floor {
        Some(v) => push_u8_dec(out, v),
        None => {
            let ln = lit_vec_null();
            append_vec(out, &ln);
        },
    }
    out.push(125);
    proof {
        let a1 = lit_last_floor();
        let d1 = spec_dec_u8(st.last_floor);
        let a2 = lit_direction();
        let d2 = spec_dec_u8(spec_motor_code(st.direction));
        let a3 = lit_errors();
        let b1 = spec_enc_bool(st.errors);
        let a4 = lit_obstructions();
        let b2 = spec_enc_bool(st.obstructions);
        let a5 = lit_target_floor();
        let o1 = spec_enc_opt_u8(st.target_floor);
        let rb = seq![125u8];
        assert(out@ == base + a1 + d1 + a2 + d2 + a3 + b1 + a4 + b2 + a5 + o1 + rb) by {
            assert(out@ =~= base + a1 + d1 + a2 + d2 + a3 + b1 + a4 + b2 + a5 + o1 + rb);
        }
        let n10 = o1 + rb;
        let n9 = a5 + n10;
        let n8 = b2 + n9;
        let n7 = a4 + n8;
        let n6 = b1 + n7;
        let n5 = a3 + n6;
        let n4 = d2 + n5;
        let n3 = a2 + n4;
        let n2 = d1 + n3;
        let n1 = a1 + n2;
        vstd::seq_lib::lemma_concat_associative(base + a1 + d1 + a2 + d2 + a3 + b1 + a4 + b2
            + a5, o1, rb);
        vstd::seq_lib::lemma_concat_associative(base + a1 + d1 + a2 + d2 + a3 + b1 + a4 + b2,
            a5, n10);
        vstd::seq_lib::lemma_concat_associative(base + a1 + d1 + a2 + d2 + a3 + b1 + a4, b2, n9);
        vstd::seq_lib::lemma_concat_associative(base + a1 + d1 + a2 + d2 + a3 + b1, a4, n8);
        vstd::seq_lib::lemma_concat_associative(base + a1 + d1 + a2 + d2 + a3, b1, n7);
        vstd::seq_lib::lemma_concat_associative(base + a1 + d1 + a2 + d2, a3, n6);
        vstd::seq_lib::lemma_concat_associative(base + a1 + d1 + a2, d2, n5);
        vstd::seq_lib::lemma_concat_associative(base + a1 + d1, a2, n4);
        vstd::seq_lib::lemma_concat_associative(base + a1, d1, n3);
        vstd::seq_lib::lemma_concat_associative(base, a1, n2);
        reveal(spec_encode_status);
        assert(out@ == base + spec_encode_status(*st));
    }
}

/// Parses a status at position `i`: exactly the canonical forms are
/// accepted.
/// The first two status fields — last floor and direction — sit
/// delimited at position `i`. Only those two fields of `st` matter.
pub open spec fn status_head_at(s: Seq<u8>, i: int, st: Status) -> bool {
    &&& bytes_at(s, i, lit_last_floor())
    &&& dec_at(s, st_off1(i, st), st.last_floor)
    &&& bytes_at(s, st_off2(i, st), lit_direction())
    &&& dec_at(s, st_off3(i, st), spec_motor_code(st.direction))
}

/// The remaining status fields — errors, obstructions, target floor —
/// and the closing brace sit at position `j`. Only those three fields
/// of `st` matter.
#[verifier::opaque]
pub open spec fn status_tail_at(s: Seq<u8>, j: int, st: Status) -> bool {
    &&& bytes_at(s, j, lit_errors())
    &&& bytes_at(s, j + 10, spec_enc_bool(st.errors))
    &&& bytes_at(s, j + 10 + spec_enc_bool(st.errors).len(), lit_obstructions())
    &&& bytes_at(
        s,
        j + 26 + spec_enc_bool(st.errors).len(),
        spec_enc_bool(st.obstructions),
    )
    &&& bytes_at(
        s,
        j + 26 + spec_enc_bool(st.errors).len() + spec_enc_bool(st.obstructions).len(),
        lit_target_floor(),
    )
    &&& opt_u8_at(
        s,
        j + 42 + spec_enc_bool(st.errors).len() + spec_enc_bool(st.obstructions).len(),
        st.target_floor,
    )
    &&& status_tail_end(j, st) - 1 < s.len()
    &&& s[status_tail_end(j, st) - 1] == 125
}

/// Where the tail's fields end: just past the closing brace.
pub open spec fn status_tail_end(j: int, st: Status) -> int {
    j + 42 + spec_enc_bool(st.errors).len() + spec_enc_bool(st.obstructions).len()
        + spec_enc_opt_u8(st.target_floor).len() + 1
}

/// A status encoding splits into its head and tail.
proof fn lemma_status_split(s: Seq<u8>, i: int, st: Status)
    requires
        bytes_at(s, i, spec_encode_status(st)),
    ensures
        status_head_at(s, i, st),
        status_tail_at(s, st_off4(i, st), st),
        i + spec_encode_status(st).len() == status_tail_end(st_off4(i, st), st),
{
    reveal(status_tail_at);
    lemma_status_parts(s, i, st);
}

/// Head and tail together make a status encoding.
proof fn lemma_status_assemble2(s: Seq<u8>, i: int, st: Status, end: int)
    requires
        status_head_at(s, i, st),
        status_tail_at(s, st_off4(i, st), st),
        end == status_tail_end(st_off4(i, st), st),
    ensures
        bytes_at(s, i, spec_encode_status(st)),
        end == i + spec_encode_status(st).len(),
{
    reveal(status_tail_at);
    lemma_status_assemble(s, i, st, end);
}

/// Parses the last floor and the direction of a status: exactly the
/// delimited canonical head forms are accepted.
#[verifier::rlimit(60)]
fn parse_status_head(s: &Vec<u8>, i: usize) -> (r: Option<(u8, MotorDirection, usize)>)
    requires
        i <= s@.len(),
    ensures
        r matches Some(p) ==> bytes_at(s@, i as int, lit_last_floor()) && dec_at(
            s@,
            i + 14,
            p.0,
        ) && bytes_at(s@, i + 14 + spec_dec_u8(p.0).len(), lit_direction()) && dec_at(
            s@,
            i + 27 + spec_dec_u8(p.0).len(),
            spec_motor_code(p.1),
        ) && p.2 == i + 27 + spec_dec_u8(p.0).len() + spec_dec_u8(spec_motor_code(p.1)).len()
            && p.2 <= s@.len(),
        forall|st: Status|
            status_head_at(s@, i as int, st) ==> (r matches Some(p) && p.0 == st.last_floor
                && p.1 == st.direction && p.2 == st_off4(i as int, st)),
{
    let n = s.len();
    let l1 = lit_vec_last_floor();
    if !match_at(s, i, &l1) {
        return None;
    }
    proof {
        assert(i + l1@.len() <= n);
    }
    let j1 = i + l1.len();
    let r1 = parse_u8_dec(s, j1);
    proof {
        assert forall|st: Status|
            status_head_at(s@, i as int, st) implies dec_at(s@, j1 as int, st.last_floor) by {
            assert(j1 as int == st_off1(i as int, st));
        }
    }
    let (last_floor, j2) = match r1 {
        Some(p) => p,
        None => {
            return None;
        },
    };
    proof {
        assert forall|st: Status|
            status_head_at(s@, i as int, st) implies st.last_floor == last_floor && bytes_at(
            s@,
            j2 as int,
            lit_direction(),
        ) by {
            assert(dec_at(s@, j1 as int, st.last_floor));
            assert(j2 as int == st_off2(i as int, st));
        }
    }
    let l2 = lit_vec_direction();
    if !match_at(s, j2, &l2) {
        return None;
    }
    proof {
        assert(j2 + l2@.len() <= n);
    }
    let j3 = j2 + l2.len();
    let r2 = parse_u8_dec(s, j3);
    proof {
        assert forall|st: Status|
            status_head_at(s@, i as int, st) implies dec_at(
            s@,
            j3 as int,
            spec_motor_code(st.direction),
        ) by {
            assert(st.last_floor == last_floor);
            assert(j3 as int == st_off3(i as int, st));
        }
    }
    let (mcode, j4) = match r2 {
        Some(p) => p,
        None => {
            return None;
        },
    };
    let direction = match motor_direction_from_code(mcode) {
        Some(d) => d,
        None => {
            proof {
                assert forall|st: Status| !status_head_at(s@, i as int, st) by {
                    if status_head_at(s@, i as int, st) {
                        assert(dec_at(s@, j3 as int, spec_motor_code(st.direction)));
                        assert(mcode == spec_motor_code(st.direction));
                        assert(spec_motor_from_code(mcode) is Some);
                    }
                }
            }
            return None;
        },
    };
    proof {
        assert(spec_motor_code(direction) == mcode);
        assert(j1 as int == i + 14);
        assert(j3 as int == i + 27 + spec_dec_u8(last_floor).len());
        assert(j4 as int == i + 27 + spec_dec_u8(last_floor).len() + spec_dec_u8(mcode).len());
        assert forall|st: Status|
            status_head_at(s@, i as int, st) implies st.last_floor == last_floor
            && st.direction == direction && st_off4(i as int, st) == j4 by {
            assert(dec_at(s@, j1 as int, st.last_floor));
            assert(dec_at(s@, j3 as int, spec_motor_code(st.direction)));
            assert(mcode == spec_motor_code(st.direction));
        }
    }
    Some((last_floor, direction, j4))
}

/// Parses the errors and obstructions fields.
#[verifier::rlimit(60)]
fn parse_status_bools(s: &Vec<u8>, j: usize) -> (r: Option<(bool, bool, usize)>)
    requires
        j <= s@.len(),
    ensures
        r matches Some(p) ==> bytes_at(s@, j as int, lit_errors()) && bytes_at(
            s@,
            j + 10,
            spec_enc_bool(p.0),
        ) && bytes_at(s@, j + 10 + spec_enc_bool(p.0).len(), lit_obstructions()) && bytes_at(
            s@,
            j + 26 + spec_enc_bool(p.0).len(),
            spec_enc_bool(p.1),
        ) && p.2 == j + 26 + spec_enc_bool(p.0).len() + spec_enc_bool(p.1).len() && p.2
            <= s@.len(),
        forall|e: bool, ob: bool|
            #![trigger spec_enc_bool(e), spec_enc_bool(ob)]
            (bytes_at(s@, j as int, lit_errors()) && bytes_at(s@, j + 10, spec_enc_bool(e))
                && bytes_at(s@, j + 10 + spec_enc_bool(e).len(), lit_obstructions())
                && bytes_at(s@, j + 26 + spec_enc_bool(e).len(), spec_enc_bool(ob))) ==> (
            r matches Some(p) && p.0 == e && p.1 == ob),
{
    let n = s.len();
    let l3 = lit_vec_errors();
    if !match_at(s, j, &l3) {
        return None;
    }
    proof {
        assert(j + l3@.len() <= n);
    }
    let j5 = j + l3.len();
    let r3 = parse_bool(s, j5);
    let (errors, j6) = match r3 {
        Some(p) => p,
        None => {
            return None;
        },
    };
    let l4 = lit_vec_obstructions();
    if !match_at(s, j6, &l4) {
        proof {
            assert forall|e: bool, ob: bool|
                #![trigger spec_enc_bool(e), spec_enc_bool(ob)]
                !(bytes_at(s@, j as int, lit_errors()) && bytes_at(
                    s@,
                    j + 10,
                    spec_enc_bool(e),
                ) && bytes_at(s@, j + 10 + spec_enc_bool(e).len(), lit_obstructions())
                    && bytes_at(s@, j + 26 + spec_enc_bool(e).len(), spec_enc_bool(ob))) by {
                if bytes_at(s@, j + 10, spec_enc_bool(e)) {
                    assert(e == errors);
                }
            }
        }
        return None;
    }
    proof {
        assert(j6 + l4@.len() <= n);
    }
    let j7 = j6 + l4.len();
    let r4 = parse_bool(s, j7);
    let (obstructions, j8) = match r4 {
        Some(p) => p,
        None => {
            proof {
                assert forall|e: bool, ob: bool|
                    #![trigger spec_enc_bool(e), spec_enc_bool(ob)]
                    !(bytes_at(s@, j as int, lit_errors()) && bytes_at(
                        s@,
                        j + 10,
                        spec_enc_bool(e),
                    ) && bytes_at(s@, j + 10 + spec_enc_bool(e).len(), lit_obstructions())
                        && bytes_at(s@, j + 26 + spec_enc_bool(e).len(), spec_enc_bool(ob))) by {
                    if bytes_at(s@, j + 10, spec_enc_bool(e)) {
                        assert(e == errors);
                        if bytes_at(s@, j + 26 + spec_enc_bool(e).len(), spec_enc_bool(ob)) {
                            assert(bytes_at(s@, j7 as int, spec_enc_bool(ob)));
                        }
                    }
                }
            }
            return None;
        },
    };
    proof {
        assert forall|e: bool, ob: bool|
            #![trigger spec_enc_bool(e), spec_enc_bool(ob)]
            (bytes_at(s@, j as int, lit_errors()) && bytes_at(s@, j + 10, spec_enc_bool(e))
                && bytes_at(s@, j + 10 + spec_enc_bool(e).len(), lit_obstructions())
                && bytes_at(s@, j + 26 + spec_enc_bool(e).len(), spec_enc_bool(ob))) implies (e
            == errors && ob == obstructions) by {
            if bytes_at(s@, j + 10, spec_enc_bool(e)) {
                assert(e == errors);
                if bytes_at(s@, j + 26 + spec_enc_bool(e).len(), spec_enc_bool(ob)) {
                    assert(bytes_at(s@, j7 as int, spec_enc_bool(ob)));
                }
            }
        }
    }
    Some((errors, obstructions, j8))
}

/// Parses the target-floor field and the closing brace.
#[verifier::rlimit(60)]
fn parse_status_tf(s: &Vec<u8>, j: usize) -> (r: Option<(Option<u8>, usize)>)
    requires
        j <= s@.len(),
    ensures
        r matches Some(p) ==> bytes_at(s@, j as int, lit_target_floor()) && opt_u8_at(
            s@,
            j + 16,
            p.0,
        ) && p.1 == j + 17 + spec_enc_opt_u8(p.0).len() && p.1 <= s@.len() && s@[p.1 - 1]
            == 125,
        forall|tf: Option<u8>|
            #![trigger spec_enc_opt_u8(tf)]
            (bytes_at(s@, j as int, lit_target_floor()) && opt_u8_at(s@, j + 16, tf) && j + 16
                + spec_enc_opt_u8(tf).len() < s@.len() && s@[j + 16 + spec_enc_opt_u8(
                tf,
            ).len()] == 125) ==> (r matches Some(p) && p.0 == tf && p.1 == j + 17
                + spec_enc_opt_u8(tf).len()),
{
    let n = s.len();
    let l5 = lit_vec_target_floor();
    if !match_at(s, j, &l5) {
        return None;
    }
    proof {
        assert(j + l5@.len() <= n);
    }
    let j9 = j + l5.len();
    let r5 = parse_opt_u8(s, j9);
    let (target_floor, j10) = match r5 {
        Some(p) => p,
        None => {
            proof {
                assert forall|tf: Option<u8>|
                    #![trigger spec_enc_opt_u8(tf)]
                    !opt_u8_at(s@, j + 16, tf) by {
                    if opt_u8_at(s@, j + 16, tf) {
                        assert(opt_u8_at(s@, j9 as int, tf));
                    }
                }
            }
            return None;
        },
    };
    proof {
        assert forall|tf: Option<u8>|
            #![trigger spec_enc_opt_u8(tf)]
            opt_u8_at(s@, j + 16, tf) implies tf == target_floor by {
            assert(opt_u8_at(s@, j9 as int, tf));
        }
    }
    if j10 >= n || s[j10] != 125 {
        return None;
    }
    Some((target_floor, j10 + 1))
}

/// Parses the errors, obstructions and target-floor fields and the
/// closing brace, completing a status whose head fields are given.
#[verifier::rlimit(100)]
fn parse_status_tail(s: &Vec<u8>, j: usize, last_floor: u8, direction: MotorDirection) -> (r:
    Option<(Status, usize)>)
    requires
        j <= s@.len(),
    ensures
        r matches Some(p) ==> p.0.last_floor == last_floor && p.0.direction == direction
            && status_tail_at(s@, j as int, p.0) && p.1 == status_tail_end(j as int, p.0),
        forall|st: Status|
            status_tail_at(s@, j as int, st) && st.last_floor == last_floor && st.direction
                == direction ==> (r matches Some(p) && p.0 == st),
{
    let rb = parse_status_bools(s, j);
    proof {
        assert forall|st: Status|
            status_tail_at(s@, j as int, st) implies (bytes_at(s@, j as int, lit_errors())
            && bytes_at(s@, j + 10, spec_enc_bool(st.errors)) && bytes_at(
            s@,
            j + 10 + spec_enc_bool(st.errors).len(),
            lit_obstructions(),
        ) && bytes_at(s@, j + 26 + spec_enc_bool(st.errors).len(), spec_enc_bool(st.obstructions))
        ) by {
            reveal(status_tail_at);
        }
    }
    let (errors, obstructions, j8) = match rb {
        Some(p) => p,
        None => {
            return None;
        },
    };
    proof {
        assert forall|st: Status|
            status_tail_at(s@, j as int, st) implies st.errors == errors && st.obstructions
            == obstructions && bytes_at(s@, j8 as int, lit_target_floor()) && opt_u8_at(
            s@,
            j8 + 16,
            st.target_floor,
        ) && j8 + 16 + spec_enc_opt_u8(st.target_floor).len() < s@.len() && s@[j8 + 16
            + spec_enc_opt_u8(st.target_floor).len()] == 125 by {
            reveal(status_tail_at);
        }
    }
    let rt = parse_status_tf(s, j8);
    let (target_floor, j10) = match rt {
        Some(p) => p,
        None => {
            return None;
        },
    };
    proof {
        assert forall|st: Status|
            status_tail_at(s@, j as int, st) implies st.target_floor == target_floor by {
            assert(st.errors == errors && st.obstructions == obstructions);
        }
    }
    let st = Status { last_floor, direction, errors, obstructions, target_floor };
    proof {
        assert(status_tail_at(s@, j as int, st) && j10 == status_tail_end(j as int, st)) by {
            reveal(status_tail_at);
        }
        assert forall|st2: Status|
            status_tail_at(s@, j as int, st2) && st2.last_floor == last_floor && st2.direction
                == direction implies st2 == st by {
            assert(st2.errors == errors && st2.obstructions == obstructions
                && st2.target_floor == target_floor);
        }
    }
    Some((st, j10))
}

/// Parses a status at position `i`: exactly the canonical forms are
/// accepted.
#[verifier::rlimit(60)]
fn parse_status(s: &Vec<u8>, i: usize) -> (r: Option<(Status, usize)>)
    requires
        i <= s@.len(),
    ensures
        r matches Some(p) ==> bytes_at(s@, i as int, spec_encode_status(p.0)) && p.1 == i
            + spec_encode_status(p.0).len(),
        forall|st: Status|
            bytes_at(s@, i as int, spec_encode_status(st)) ==> (r matches Some(p) && p.0 == st),
{
    let rh = parse_status_head(s, i);
    proof {
        assert forall|st: Status|
            #![trigger spec_encode_status(st)]
            bytes_at(s@, i as int, spec_encode_status(st)) implies status_head_at(
                s@,
                i as int,
                st,
            ) by {
            lemma_status_split(s@, i as int, st);
        }
    }
    let (last_floor, direction, j) = match rh {
        Some(p) => p,
        None => {
            return None;
        },
    };
    let rt = parse_status_tail(s, j, last_floor, direction);
    proof {
        assert forall|st: Status|
            #![trigger spec_encode_status(st)]
            bytes_at(s@, i as int, spec_encode_status(st)) implies status_tail_at(
                s@,
                j as int,
                st,
            ) && st.last_floor == last_floor && st.direction == direction by {
            lemma_status_split(s@, i as int, st);
            assert(status_head_at(s@, i as int, st));
            assert(st.last_floor == last_floor && st.direction == direction);
            assert(st_off4(i as int, st) == j);
        }
    }
    let (st, end) = match rt {
        Some(p) => p,
        None => {
            return None;
        },
    };
    proof {
        assert(status_head_at(s@, i as int, st)) by {
            assert(st.last_floor == last_floor && st.direction == direction);
            assert(st_off1(i as int, st) == i + 14);
            assert(st_off2(i as int, st) == i + 14 + spec_dec_u8(last_floor).len());
            assert(st_off3(i as int, st) == i + 27 + spec_dec_u8(last_floor).len());
        }
        assert(j == st_off4(i as int, st));
        lemma_status_assemble2(s@, i as int, st, end as int);
        assert forall|st2: Status|
            #![trigger spec_encode_status(st2)]
            bytes_at(s@, i as int, spec_encode_status(st2)) implies st2 == st by {
            assert(status_tail_at(s@, j as int, st2));
        }
    }
    Some((st, end))
}

/// `null` or a status object.
pub open spec fn spec_enc_opt_status(os: Option<Status>) -> Seq<u8> {
    match os {
        None => lit_null(),
        Some(st) => spec_encode_status(st),
    }
}

/// `null` or an order object.
pub open spec fn spec_enc_opt_order(oo: Option<Order>) -> Seq<u8> {
    match oo {
        None => lit_null(),
        Some(o) => spec_encode_order(o),
    }
}

/// An optional status sits at position `i`.
pub open spec fn opt_status_at(s: Seq<u8>, i: int, os: Option<Status>) -> bool {
    bytes_at(s, i, spec_enc_opt_status(os))
}

/// An optional order sits at position `i`.
pub open spec fn opt_order_at(s: Seq<u8>, i: int, oo: Option<Order>) -> bool {
    bytes_at(s, i, spec_enc_opt_order(oo))
}

/// The canonical form of a message envelope.
#[verifier::opaque]
pub open spec fn spec_encode_comm(m: Communication) -> Seq<u8> {
    lit_sender() + (spec_dec_u8(m.sender) + (lit_sender_role() + (spec_dec_u8(
        spec_role_code(m.sender_role),
    ) + (lit_target() + (spec_dec_u8(m.target) + (lit_comm_type() + (spec_dec_u8(
        spec_comm_type_code(m.comm_type),
    ) + (lit_status() + (spec_enc_opt_status(m.status) + (lit_order() + (spec_enc_opt_order(
        m.order,
    ) + seq![125u8])))))))))))
}

/// The sender and its role sit delimited at position `i`.
pub open spec fn comm_head1_at(s: Seq<u8>, i: int, m: Communication) -> bool {
    &&& bytes_at(s, i, lit_sender())
    &&& dec_at(s, i + 10, m.sender)
    &&& bytes_at(s, i + 10 + spec_dec_u8(m.sender).len(), lit_sender_role())
    &&& dec_at(s, i + 25 + spec_dec_u8(m.sender).len(), spec_role_code(m.sender_role))
}

/// Just past the sender and role fields.
pub open spec fn comm_head1_end(i: int, m: Communication) -> int {
    i + 25 + spec_dec_u8(m.sender).len() + spec_dec_u8(spec_role_code(m.sender_role)).len()
}

/// The target and message type sit delimited at position `j`.
pub open spec fn comm_head2_at(s: Seq<u8>, j: int, m: Communication) -> bool {
    &&& bytes_at(s, j, lit_target())
    &&& dec_at(s, j + 10, m.target)
    &&& bytes_at(s, j + 10 + spec_dec_u8(m.target).len(), lit_comm_type())
    &&& dec_at(s, j + 23 + spec_dec_u8(m.target).len(), spec_comm_type_code(m.comm_type))
}

/// Just past the target and message type fields.
pub open spec fn comm_head2_end(j: int, m: Communication) -> int {
    j + 23 + spec_dec_u8(m.target).len() + spec_dec_u8(spec_comm_type_code(m.comm_type)).len()
}

/// The optional status and order and the closing brace sit at `j`.
#[verifier::opaque]
pub open spec fn comm_tail_at(s: Seq<u8>, j: int, m: Communication) -> bool {
    &&& bytes_at(s, j, lit_status())
    &&& opt_status_at(s, j + 10, m.status)
    &&& bytes_at(s, j + 10 + spec_enc_opt_status(m.status).len(), lit_order())
    &&& opt_order_at(s, j + 19 + spec_enc_opt_status(m.status).len(), m.order)
    &&& comm_tail_end(j, m) - 1 < s.len()
    &&& s[comm_tail_end(j, m) - 1] == 125
}

/// Just past the closing brace.
pub open spec fn comm_tail_end(j: int, m: Communication) -> int {
    j + 19 + spec_enc_opt_status(m.status).len() + spec_enc_opt_order(m.order).len() + 1
}

/// An envelope encoding splits into its two numeric heads and its
/// tail.
#[verifier::rlimit(100)]
proof fn lemma_comm_split(s: Seq<u8>, i: int, m: Communication)
    requires
        bytes_at(s, i, spec_encode_comm(m)),
    ensures
        comm_head1_at(s, i, m),
        comm_head2_at(s, comm_head1_end(i, m), m),
        comm_tail_at(s, comm_head2_end(comm_head1_end(i, m), m), m),
        i + spec_encode_comm(m).len() == comm_tail_end(
            comm_head2_end(comm_head1_end(i, m), m),
            m,
        ),
{
    reveal(spec_encode_comm);
    reveal(comm_tail_at);
    let t1 = spec_dec_u8(m.sender) + (lit_sender_role() + (spec_dec_u8(
        spec_role_code(m.sender_role),
    ) + (lit_target() + (spec_dec_u8(m.target) + (lit_comm_type() + (spec_dec_u8(
        spec_comm_type_code(m.comm_type),
    ) + (lit_status() + (spec_enc_opt_status(m.status) + (lit_order() + (spec_enc_opt_order(
        m.order,
    ) + seq![125u8]))))))))));
    lemma_bytes_at_split(s, i, lit_sender(), t1);
    let t2 = lit_sender_role() + (spec_dec_u8(spec_role_code(m.sender_role)) + (lit_target() + (
    spec_dec_u8(m.target) + (lit_comm_type() + (spec_dec_u8(spec_comm_type_code(m.comm_type)) + (
    lit_status() + (spec_enc_opt_status(m.status) + (lit_order() + (spec_enc_opt_order(m.order)
        + seq![125u8])))))))));
    lemma_bytes_at_split(s, i + 10, spec_dec_u8(m.sender), t2);
    lemma_dec_at_from_bytes(s, i + 10, m.sender, t2);
    let p2 = i + 10 + spec_dec_u8(m.sender).len();
    let t3 = spec_dec_u8(spec_role_code(m.sender_role)) + (lit_target() + (spec_dec_u8(m.target)
        + (lit_comm_type() + (spec_dec_u8(spec_comm_type_code(m.comm_type)) + (lit_status() + (
    spec_enc_opt_status(m.status) + (lit_order() + (spec_enc_opt_order(m.order)
        + seq![125u8]))))))));
    lemma_bytes_at_split(s, p2, lit_sender_role(), t3);
    let t4 = lit_target() + (spec_dec_u8(m.target) + (lit_comm_type() + (spec_dec_u8(
        spec_comm_type_code(m.comm_type),
    ) + (lit_status() + (spec_enc_opt_status(m.status) + (lit_order() + (spec_enc_opt_order(
        m.order,
    ) + seq![125u8])))))));
    lemma_bytes_at_split(s, p2 + 15, spec_dec_u8(spec_role_code(m.sender_role)), t4);
    lemma_dec_at_from_bytes(s, p2 + 15, spec_role_code(m.sender_role), t4);
    let p4 = comm_head1_end(i, m);
    let t5 = spec_dec_u8(m.target) + (lit_comm_type() + (spec_dec_u8(
        spec_comm_type_code(m.comm_type),
    ) + (lit_status() + (spec_enc_opt_status(m.status) + (lit_order() + (spec_enc_opt_order(
        m.order,
    ) + seq![125u8]))))));
    lemma_bytes_at_split(s, p4, lit_target(), t5);
    let t6 = lit_comm_type() + (spec_dec_u8(spec_comm_type_code(m.comm_type)) + (lit_status() + (
    spec_enc_opt_status(m.status) + (lit_order() + (spec_enc_opt_order(m.order) + seq![125u8])))));
    lemma_bytes_at_split(s, p4 + 10, spec_dec_u8(m.target), t6);
    lemma_dec_at_from_bytes(s, p4 + 10, m.target, t6);
    let p6 = p4 + 10 + spec_dec_u8(m.target).len();
    let t7 = spec_dec_u8(spec_comm_type_code(m.comm_type)) + (lit_status() + (spec_enc_opt_status(
        m.status,
    ) + (lit_order() + (spec_enc_opt_order(m.order) + seq![125u8]))));
    lemma_bytes_at_split(s, p6, lit_comm_type(), t7);
    let t8 = lit_status() + (spec_enc_opt_status(m.status) + (lit_order() + (spec_enc_opt_order(
        m.order,
    ) + seq![125u8])));
    lemma_bytes_at_split(s, p6 + 13, spec_dec_u8(spec_comm_type_code(m.comm_type)), t8);
    lemma_dec_at_from_bytes(s, p6 + 13, spec_comm_type_code(m.comm_type), t8);
    let p8 = comm_head2_end(p4, m);
    let t9 = spec_enc_opt_status(m.status) + (lit_order() + (spec_enc_opt_order(m.order)
        + seq![125u8]));
    lemma_bytes_at_split(s, p8, lit_status(), t9);
    let t10 = lit_order() + (spec_enc_opt_order(m.order) + seq![125u8]);
    lemma_bytes_at_split(s, p8 + 10, spec_enc_opt_status(m.status), t10);
    let p10 = p8 + 10 + spec_enc_opt_status(m.status).len();
    let t11 = spec_enc_opt_order(m.order) + seq![125u8];
    lemma_bytes_at_split(s, p10, lit_order(), t11);
    lemma_bytes_at_split(s, p10 + 9, spec_enc_opt_order(m.order), seq![125u8]);
    let p12 = p10 + 9 + spec_enc_opt_order(m.order).len();
    assert(s.subrange(p12, p12 + 1)[0] == s[p12]);
}

/// Heads and tail together make an envelope encoding.
#[verifier::rlimit(100)]
proof fn lemma_comm_assemble(s: Seq<u8>, i: int, m: Communication, end: int)
    requires
        comm_head1_at(s, i, m),
        comm_head2_at(s, comm_head1_end(i, m), m),
        comm_tail_at(s, comm_head2_end(comm_head1_end(i, m), m), m),
        end == comm_tail_end(comm_head2_end(comm_head1_end(i, m), m), m),
    ensures
        bytes_at(s, i, spec_encode_comm(m)),
        end == i + spec_encode_comm(m).len(),
{
    reveal(spec_encode_comm);
    reveal(comm_tail_at);
    assert(s.subrange(i, end) =~= spec_encode_comm(m));
}

/// The first byte of a status object is an opening brace.
proof fn lemma_status_first_byte(s: Seq<u8>, i: int, st: Status)
    requires
        bytes_at(s, i, spec_encode_status(st)),
    ensures
        i < s.len(),
        s[i] == 123,
{
    lemma_status_parts(s, i, st);
    assert(s.subrange(i, i + lit_last_floor().len())[0] == s[i]);
}

/// The first byte of an order object is an opening brace.
proof fn lemma_order_first_byte(s: Seq<u8>, i: int, o: Order)
    requires
        bytes_at(s, i, spec_encode_order(o)),
    ensures
        i < s.len(),
        s[i] == 123,
{
    reveal(spec_encode_order);
    let t1 = spec_dec_u8(o.floor_number) + (lit_direction() + (spec_dec_u8(
        spec_hall_code(o.direction),
    ) + seq![125u8]));
    lemma_bytes_at_split(s, i, lit_floor_number(), t1);
    assert(s.subrange(i, i + lit_floor_number().len())[0] == s[i]);
}

/// Parses `null` or a status object.
fn parse_opt_status(s: &Vec<u8>, i: usize) -> (r: Option<(Option<Status>, usize)>)
    requires
        i <= s@.len(),
    ensures
        r matches Some(p) ==> opt_status_at(s@, i as int, p.0) && p.1 == i + spec_enc_opt_status(
            p.0,
        ).len(),
        forall|os: Option<Status>|
            #![trigger spec_enc_opt_status(os)]
            opt_status_at(s@, i as int, os) ==> (r matches Some(p) && p.0 == os),
{
    let n = s.len();
    let ln = lit_vec_null();
    if match_at(s, i, &ln) {
        proof {
            assert(i + 4 <= n);
            assert forall|os: Option<Status>|
                #![trigger spec_enc_opt_status(os)]
                opt_status_at(s@, i as int, os) implies os is None by {
                match os {
                    Some(st) => {
                        lemma_status_first_byte(s@, i as int, st);
                        assert(s@.subrange(i as int, i + 4)[0] == s@[i as int]);
                    },
                    None => {
                    },
                }
            }
        }
        Some((None, i + 4))
    } else {
        match parse_status(s, i) {
            Some((st, j)) => {
                proof {
                    assert forall|os: Option<Status>|
                        #![trigger spec_enc_opt_status(os)]
                        opt_status_at(s@, i as int, os) implies os == Some(st) by {
                        match os {
                            Some(st2) => {},
                            None => {
                                assert(bytes_at(s@, i as int, lit_null()));
                            },
                        }
                    }
                }
                Some((Some(st), j))
            },
            None => {
                proof {
                    assert forall|os: Option<Status>|
                        #![trigger spec_enc_opt_status(os)]
                        !opt_status_at(s@, i as int, os) by {
                        match os {
                            Some(st2) => {},
                            None => {
                                if opt_status_at(s@, i as int, os) {
                                    assert(bytes_at(s@, i as int, lit_null()));
                                }
                            },
                        }
                    }
                }
                None
            },
        }
    }
}

/// Parses `null` or an order object.
fn parse_opt_order(s: &Vec<u8>, i: usize) -> (r: Option<(Option<Order>, usize)>)
    requires
        i <= s@.len(),
    ensures
        r matches Some(p) ==> opt_order_at(s@, i as int, p.0) && p.1 == i + spec_enc_opt_order(
            p.0,
        ).len(),
        forall|oo: Option<Order>|
            #![trigger spec_enc_opt_order(oo)]
            opt_order_at(s@, i as int, oo) ==> (r matches Some(p) && p.0 == oo),
{
    let n = s.len();
    let ln = lit_vec_null();
    if match_at(s, i, &ln) {
        proof {
            assert(i + 4 <= n);
            assert forall|oo: Option<Order>|
                #![trigger spec_enc_opt_order(oo)]
                opt_order_at(s@, i as int, oo) implies oo is None by {
                match oo {
                    Some(o) => {
                        lemma_order_first_byte(s@, i as int, o);
                        assert(s@.subrange(i as int, i + 4)[0] == s@[i as int]);
                    },
                    None => {
                    },
                }
            }
        }
        Some((None, i + 4))
    } else {
        match parse_order(s, i) {
            Some((o, j)) => {
                proof {
                    assert forall|oo: Option<Order>|
                        #![trigger spec_enc_opt_order(oo)]
                        opt_order_at(s@, i as int, oo) implies oo == Some(o) by {
                        match oo {
                            Some(o2) => {},
                            None => {
                                assert(bytes_at(s@, i as int, lit_null()));
                            },
                        }
                    }
                }
                Some((Some(o), j))
            },
            None => {
                proof {
                    assert forall|oo: Option<Order>|
                        #![trigger spec_enc_opt_order(oo)]
                        !opt_order_at(s@, i as int, oo) by {
                        match oo {
                            Some(o2) => {},
                            None => {
                                if opt_order_at(s@, i as int, oo) {
                                    assert(bytes_at(s@, i as int, lit_null()));
                                }
                            },
                        }
                    }
                }
                None
            },
        }
    }
}

/// Parses the sender and its role: exactly the delimited canonical
/// forms are accepted.
#[verifier::rlimit(60)]
fn parse_comm_head1(s: &Vec<u8>, i: usize) -> (r: Option<(u8, Role, usize)>)
    requires
        i <= s@.len(),
    ensures
        r matches Some(p) ==> bytes_at(s@, i as int, lit_sender()) && dec_at(s@, i + 10, p.0)
            && bytes_at(s@, i + 10 + spec_dec_u8(p.0).len(), lit_sender_role()) && dec_at(
            s@,
            i + 25 + spec_dec_u8(p.0).len(),
            spec_role_code(p.1),
        ) && p.2 == i + 25 + spec_dec_u8(p.0).len() + spec_dec_u8(spec_role_code(p.1)).len()
            && p.2 <= s@.len(),
        forall|m: Communication|
            #![trigger comm_head1_at(s@, i as int, m)]
            comm_head1_at(s@, i as int, m) ==> (r matches Some(p) && p.0 == m.sender && p.1
                == m.sender_role && p.2 == comm_head1_end(i as int, m)),
{
    let n = s.len();
    let l1 = lit_vec_sender();
    if !match_at(s, i, &l1) {
        return None;
    }
    proof {
        assert(i + l1@.len() <= n);
    }
    let j1 = i + l1.len();
    let r1 = parse_u8_dec(s, j1);
    proof {
        assert forall|m: Communication|
            #![trigger comm_head1_at(s@, i as int, m)]
            comm_head1_at(s@, i as int, m) implies dec_at(s@, j1 as int, m.sender) by {}
    }
    let (sender, j2) = match r1 {
        Some(p) => p,
        None => {
            return None;
        },
    };
    proof {
        assert forall|m: Communication|
            #![trigger comm_head1_at(s@, i as int, m)]
            comm_head1_at(s@, i as int, m) implies m.sender == sender && bytes_at(
                s@,
                j2 as int,
                lit_sender_role(),
            ) by {
            assert(dec_at(s@, j1 as int, m.sender));
        }
    }
    let l2 = lit_vec_sender_role();
    if !match_at(s, j2, &l2) {
        return None;
    }
    proof {
        assert(j2 + l2@.len() <= n);
    }
    let j3 = j2 + l2.len();
    let r2 = parse_u8_dec(s, j3);
    proof {
        assert forall|m: Communication|
            #![trigger comm_head1_at(s@, i as int, m)]
            comm_head1_at(s@, i as int, m) implies dec_at(
                s@,
                j3 as int,
                spec_role_code(m.sender_role),
            ) by {
            assert(m.sender == sender);
        }
    }
    let (rcode, j4) = match r2 {
        Some(p) => p,
        None => {
            return None;
        },
    };
    let sender_role = match role_from_code(rcode) {
        Some(x) => x,
        None => {
            proof {
                assert forall|m: Communication| !comm_head1_at(s@, i as int, m) by {
                    if comm_head1_at(s@, i as int, m) {
                        assert(dec_at(s@, j3 as int, spec_role_code(m.sender_role)));
                        assert(rcode == spec_role_code(m.sender_role));
                        assert(spec_role_from_code(rcode) is Some);
                    }
                }
            }
            return None;
        },
    };
    proof {
        assert(spec_role_code(sender_role) == rcode);
        assert(j1 as int == i + 10);
        assert(j3 as int == i + 25 + spec_dec_u8(sender).len());
        assert forall|m: Communication|
            #![trigger comm_head1_at(s@, i as int, m)]
            comm_head1_at(s@, i as int, m) implies m.sender == sender && m.sender_role
            == sender_role && comm_head1_end(i as int, m) == j4 by {
            assert(dec_at(s@, j1 as int, m.sender));
            assert(dec_at(s@, j3 as int, spec_role_code(m.sender_role)));
            assert(rcode == spec_role_code(m.sender_role));
        }
    }
    Some((sender, sender_role, j4))
}

/// Parses the target and the message type: exactly the delimited
/// canonical forms are accepted.
#[verifier::rlimit(60)]
fn parse_comm_head2(s: &Vec<u8>, j: usize) -> (r: Option<(u8, CommType, usize)>)
    requires
        j <= s@.len(),
    ensures
        r matches Some(p) ==> bytes_at(s@, j as int, lit_target()) && dec_at(s@, j + 10, p.0)
            && bytes_at(s@, j + 10 + spec_dec_u8(p.0).len(), lit_comm_type()) && dec_at(
            s@,
            j + 23 + spec_dec_u8(p.0).len(),
            spec_comm_type_code(p.1),
        ) && p.2 == j + 23 + spec_dec_u8(p.0).len() + spec_dec_u8(
            spec_comm_type_code(p.1),
        ).len() && p.2 <= s@.len(),
        forall|m: Communication|
            #![trigger comm_head2_at(s@, j as int, m)]
            comm_head2_at(s@, j as int, m) ==> (r matches Some(p) && p.0 == m.target && p.1
                == m.comm_type && p.2 == comm_head2_end(j as int, m)),
{
    let n = s.len();
    let l1 = lit_vec_target();
    if !match_at(s, j, &l1) {
        return None;
    }
    proof {
        assert(j + l1@.len() <= n);
    }
    let j1 = j + l1.len();
    let r1 = parse_u8_dec(s, j1);
    proof {
        assert forall|m: Communication|
            #![trigger comm_head2_at(s@, j as int, m)]
            comm_head2_at(s@, j as int, m) implies dec_at(s@, j1 as int, m.target) by {}
    }
    let (target, j2) = match r1 {
        Some(p) => p,
        None => {
            return None;
        },
    };
    proof {
        assert forall|m: Communication|
            #![trigger comm_head2_at(s@, j as int, m)]
            comm_head2_at(s@, j as int, m) implies m.target == target && bytes_at(
                s@,
                j2 as int,
                lit_comm_type(),
            ) by {
            assert(dec_at(s@, j1 as int, m.target));
        }
    }
    let l2 = lit_vec_comm_type();
    if !match_at(s, j2, &l2) {
        return None;
    }
    proof {
        assert(j2 + l2@.len() <= n);
    }
    let j3 = j2 + l2.len();
    let r2 = parse_u8_dec(s, j3);
    proof {
        assert forall|m: Communication|
            #![trigger comm_head2_at(s@, j as int, m)]
            comm_head2_at(s@, j as int, m) implies dec_at(
                s@,
                j3 as int,
                spec_comm_type_code(m.comm_type),
            ) by {
            assert(m.target == target);
        }
    }
    let (ccode, j4) = match r2 {
        Some(p) => p,
        None => {
            return None;
        },
    };
    let comm_type = match comm_type_from_code(ccode) {
        Some(x) => x,
        None => {
            proof {
                assert forall|m: Communication| !comm_head2_at(s@, j as int, m) by {
                    if comm_head2_at(s@, j as int, m) {
                        assert(dec_at(s@, j3 as int, spec_comm_type_code(m.comm_type)));
                        assert(ccode == spec_comm_type_code(m.comm_type));
                        assert(spec_comm_type_from_code(ccode) is Some);
                    }
                }
            }
            return None;
        },
    };
    proof {
        assert(spec_comm_type_code(comm_type) == ccode);
        assert(j1 as int == j + 10);
        assert(j3 as int == j + 23 + spec_dec_u8(target).len());
        assert forall|m: Communication|
            #![trigger comm_head2_at(s@, j as int, m)]
            comm_head2_at(s@, j as int, m) implies m.target == target && m.comm_type
            == comm_type && comm_head2_end(j as int, m) == j4 by {
            assert(dec_at(s@, j1 as int, m.target));
            assert(dec_at(s@, j3 as int, spec_comm_type_code(m.comm_type)));
            assert(ccode == spec_comm_type_code(m.comm_type));
        }
    }
    Some((target, comm_type, j4))
}

/// Decodes one datagram. Exactly the canonical encodings are accepted,
/// in full: whatever is returned encodes back to the very input, and
/// every message's encoding is decoded to that message. Everything
/// else — malformed, truncated, or trailing bytes — is rejected.
#[verifier::rlimit(100)]
pub fn decode_communication(s: &Vec<u8>) -> (r: Option<Communication>)
    ensures
        r matches Some(m) ==> s@ == spec_encode_comm(m),
        forall|m: Communication|
            #![trigger spec_encode_comm(m)]
            s@ == spec_encode_comm(m) ==> r == Some(m),
{
    proof {
        assert forall|m: Communication|
            #![trigger spec_encode_comm(m)]
            s@ == spec_encode_comm(m) implies bytes_at(s@, 0, spec_encode_comm(m)) by {
            assert(s@.subrange(0, s@.len() as int) =~= s@);
        }
        assert forall|m: Communication|
            #![trigger spec_encode_comm(m)]
            s@ == spec_encode_comm(m) implies comm_head1_at(s@, 0, m) by {
            assert(bytes_at(s@, 0, spec_encode_comm(m)));
            lemma_comm_split(s@, 0, m);
        }
    }
    let rh1 = parse_comm_head1(s, 0);
    let (sender, sender_role, j1) = match rh1 {
        Some(p) => p,
        None => {
            return None;
        },
    };
    proof {
        assert forall|m: Communication|
            #![trigger spec_encode_comm(m)]
            s@ == spec_encode_comm(m) implies comm_head2_at(s@, j1 as int, m) && m.sender
            == sender && m.sender_role == sender_role by {
            assert(bytes_at(s@, 0, spec_encode_comm(m)));
            lemma_comm_split(s@, 0, m);
            assert(comm_head1_at(s@, 0, m));
            assert(comm_head1_end(0, m) == j1);
        }
    }
    let rh2 = parse_comm_head2(s, j1);
    let (target, comm_type, j2) = match rh2 {
        Some(p) => p,
        None => {
            return None;
        },
    };
    proof {
        assert forall|m: Communication|
            #![trigger spec_encode_comm(m)]
            s@ == spec_encode_comm(m) implies comm_tail_at(s@, j2 as int, m) && bytes_at(
                s@,
                j2 as int,
                lit_status(),
            ) && opt_status_at(s@, j2 + 10, m.status) by {
            assert(bytes_at(s@, 0, spec_encode_comm(m)));
            lemma_comm_split(s@, 0, m);
            assert(comm_head1_at(s@, 0, m));
            assert(comm_head1_end(0, m) == j1);
            assert(comm_head2_at(s@, j1 as int, m));
            assert(comm_head2_end(j1 as int, m) == j2);
            reveal(comm_tail_at);
        }
    }
    let n = s.len();
    let l5 = lit_vec_status();
    if !match_at(s, j2, &l5) {
        return None;
    }
    proof {
        assert(j2 + l5@.len() <= n);
    }
    let j3 = j2 + l5.len();
    let rs = parse_opt_status(s, j3);
    let (status, j4) = match rs {
        Some(p) => p,
        None => {
            return None;
        },
    };
    proof {
        assert forall|m: Communication|
            #![trigger spec_encode_comm(m)]
            s@ == spec_encode_comm(m) implies m.status == status && bytes_at(
                s@,
                j4 as int,
                lit_order(),
            ) && opt_order_at(s@, j4 + 9, m.order) by {
            assert(comm_tail_at(s@, j2 as int, m));
            reveal(comm_tail_at);
            assert(opt_status_at(s@, j3 as int, m.status));
        }
    }
    let l6 = lit_vec_order();
    if !match_at(s, j4, &l6) {
        return None;
    }
    proof {
        assert(j4 + l6@.len() <= n);
    }
    let j5 = j4 + l6.len();
    let ro = parse_opt_order(s, j5);
    let (order, j6) = match ro {
        Some(p) => p,
        None => {
            return None;
        },
    };
    proof {
        assert forall|m: Communication|
            #![trigger spec_encode_comm(m)]
            s@ == spec_encode_comm(m) implies m.order == order && j6 == comm_tail_end(
                j2 as int,
                m,
            ) - 1 && j6 + 1 == s@.len() && s@[j6 as int] == 125 by {
            assert(comm_tail_at(s@, j2 as int, m));
            reveal(comm_tail_at);
            assert(opt_order_at(s@, j5 as int, m.order));
            assert(bytes_at(s@, 0, spec_encode_comm(m)));
            lemma_comm_split(s@, 0, m);
        }
    }
    if j6 >= n || s[j6] != 125 || j6 + 1 != n {
        return None;
    }
    let m = Communication { sender, sender_role, target, comm_type, status, order };
    proof {
        assert(comm_head1_at(s@, 0, m) && comm_head1_end(0, m) == j1) by {
            assert(spec_role_code(m.sender_role) == spec_role_code(sender_role));
        }
        assert(comm_head2_at(s@, j1 as int, m) && comm_head2_end(j1 as int, m) == j2);
        assert(comm_tail_at(s@, j2 as int, m)) by {
            reveal(comm_tail_at);
            assert(opt_status_at(s@, j3 as int, m.status));
            assert(opt_order_at(s@, j5 as int, m.order));
            assert(comm_tail_end(j2 as int, m) - 1 == j6);
        }
        lemma_comm_assemble(s@, 0, m, j6 + 1);
        assert(s@ == spec_encode_comm(m)) by {
            assert(s@.subrange(0, s@.len() as int) =~= s@);
        }
        assert forall|m2: Communication|
            #![trigger spec_encode_comm(m2)]
            s@ == spec_encode_comm(m2) implies m2 == m by {
            assert(m2.sender == sender && m2.sender_role == sender_role && m2.target == target
                && m2.comm_type == comm_type && m2.status == status && m2.order == order);
        }
    }
    Some(m)
}

/// Encodes one message into the bytes of one datagram: exactly the
/// canonical form that `decode_communication` accepts.
#[verifier::rlimit(100)]
pub fn encode_communication(m: &Communication) -> (r: Vec<u8>)
    ensures
        r@ == spec_encode_comm(*m),
{
    let mut out: Vec<u8> = Vec::new();
    let ghost base = out@;
    let l1 = lit_vec_sender();
    append_vec(&mut out, &l1);
    push_u8_dec(&mut out, m.sender);
    let l2 = lit_vec_sender_role();
    append_vec(&mut out, &l2);
    push_u8_dec(&mut out, role_code(m.sender_role));
    let l3 = lit_vec_target();
    append_vec(&mut out, &l3);
    push_u8_dec(&mut out, m.target);
    let l4 = lit_vec_comm_type();
    append_vec(&mut out, &l4);
    push_u8_dec(&mut out, comm_type_code(m.comm_type));
    let l5 = lit_vec_status();
    append_vec(&mut out, &l5);
    match &m.status {
        Some(st) => encode_status_into(&mut out, st),
        None => {
            let ln = lit_vec_null();
            append_vec(&mut out, &ln);
        },
    }
    let l6 = lit_vec_order();
    append_vec(&mut out, &l6);
    match &m.order {
        Some(o) => encode_order_into(&mut out, o),
        None => {
            let ln = lit_vec_null();
            append_vec(&mut out, &ln);
        },
    }
    out.push(125);
    proof {
        let a1 = lit_sender();
        let d1 = spec_dec_u8(m.sender);
        let a2 = lit_sender_role();
        let d2 = spec_dec_u8(spec_role_code(m.sender_role));
        let a3 = lit_target();
        let d3 = spec_dec_u8(m.target);
        let a4 = lit_comm_type();
        let d4 = spec_dec_u8(spec_comm_type_code(m.comm_type));
        let a5 = lit_status();
        let s1 = spec_enc_opt_status(m.status);
        let a6 = lit_order();
        let s2 = spec_enc_opt_order(m.order);
        let rb = seq![125u8];
        assert(out@ == base + a1 + d1 + a2 + d2 + a3 + d3 + a4 + d4 + a5 + s1 + a6 + s2 + rb)
            by {
            assert(out@ =~= base + a1 + d1 + a2 + d2 + a3 + d3 + a4 + d4 + a5 + s1 + a6 + s2
                + rb);
        }
        let n12 = s2 + rb;
        let n11 = a6 + n12;
        let n10 = s1 + n11;
        let n9 = a5 + n10;
        let n8 = d4 + n9;
        let n7 = a4 + n8;
        let n6 = d3 + n7;
        let n5 = a3 + n6;
        let n4 = d2 + n5;
        let n3 = a2 + n4;
        let n2 = d1 + n3;
        let n1 = a1 + n2;
        vstd::seq_lib::lemma_concat_associative(base + a1 + d1 + a2 + d2 + a3 + d3 + a4 + d4
            + a5 + s1 + a6, s2, rb);
        vstd::seq_lib::lemma_concat_associative(base + a1 + d1 + a2 + d2 + a3 + d3 + a4 + d4
            + a5 + s1, a6, n12);
        vstd::seq_lib::lemma_concat_associative(base + a1 + d1 + a2 + d2 + a3 + d3 + a4 + d4
            + a5, s1, n11);
        vstd::seq_lib::lemma_concat_associative(base + a1 + d1 + a2 + d2 + a3 + d3 + a4 + d4,
            a5, n10);
        vstd::seq_lib::lemma_concat_associative(base + a1 + d1 + a2 + d2 + a3 + d3 + a4, d4, n9);
        vstd::seq_lib::lemma_concat_associative(base + a1 + d1 + a2 + d2 + a3 + d3, a4, n8);
        vstd::seq_lib::lemma_concat_associative(base + a1 + d1 + a2 + d2 + a3, d3, n7);
        vstd::seq_lib::lemma_concat_associative(base + a1 + d1 + a2 + d2, a3, n6);
        vstd::seq_lib::lemma_concat_associative(base + a1 + d1 + a2, d2, n5);
        vstd::seq_lib::lemma_concat_associative(base + a1 + d1, a2, n4);
        vstd::seq_lib::lemma_concat_associative(base + a1, d1, n3);
        vstd::seq_lib::lemma_concat_associative(base, a1, n2);
        reveal(spec_encode_comm);
        assert(base + n1 == spec_encode_comm(*m)) by {
            assert(base =~= Seq::<u8>::empty());
            assert(base + n1 =~= n1);
        }
        assert(out@ == spec_encode_comm(*m));
    }
    out
}

} // verus!
