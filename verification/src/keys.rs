//! Storage-name derivation.
//!
//! Each account owns three storage slots: its guardian list, its threshold,
//! and its initialized flag. The slot names are derived deterministically
//! from a fixed per-field prefix followed by the account identifier's
//! canonical textual form (lowercase hex of its bytes). Derivation is
//! injective: distinct fields or distinct accounts never share a name, which
//! is what keeps the records of different accounts isolated from each other.

use vstd::prelude::*;

use crate::types::AccountId;

verus! {

/// Lowercase hex digit for a nibble.
pub open spec fn hex_digit(n: u8) -> u8
    recommends
        n < 16,
{
    if n < 10 {
        (48 + n) as u8
    } else {
        (87 + n) as u8
    }
}

/// Lowercase hex encoding of a byte string: two digits per byte, in order.
pub open spec fn hex_of(s: Seq<u8>) -> Seq<u8>
    decreases s.len(),
{
    if s.len() == 0 {
        Seq::empty()
    } else {
        hex_of(s.drop_last()) + seq![hex_digit(s.last() / 16), hex_digit(s.last() % 16)]
    }
}

/// Bytes of the guardian-list field prefix.
pub open spec fn guardians_prefix() -> Seq<u8> {
    seq![103u8, 117u8, 97u8, 114u8, 100u8, 105u8, 97u8, 110u8, 115u8, 95u8]
}

/// Bytes of the threshold field prefix.
pub open spec fn threshold_prefix() -> Seq<u8> {
    seq![116u8, 104u8, 114u8, 101u8, 115u8, 104u8, 111u8, 108u8, 100u8, 95u8]
}

/// Bytes of the initialized-flag field prefix.
pub open spec fn initialized_prefix() -> Seq<u8> {
    seq![105u8, 110u8, 105u8, 116u8, 105u8, 97u8, 108u8, 105u8, 122u8, 101u8, 100u8, 95u8]
}

/// Storage name of an account's guardian-list slot.
pub open spec fn guardians_name(account: Seq<u8>) -> Seq<u8> {
    guardians_prefix() + hex_of(account)
}

/// Storage name of an account's threshold slot.
pub open spec fn threshold_name(account: Seq<u8>) -> Seq<u8> {
    threshold_prefix() + hex_of(account)
}

/// Storage name of an account's initialized-flag slot.
pub open spec fn initialized_name(account: Seq<u8>) -> Seq<u8> {
    initialized_prefix() + hex_of(account)
}

/// The hex encoding of a byte string is twice as long.
pub proof fn lemma_hex_of_len(s: Seq<u8>)
    ensures
        hex_of(s).len() == 2 * s.len(),
    decreases s.len(),
{
    if s.len() > 0 {
        lemma_hex_of_len(s.drop_last());
    }
}

/// Two nibbles with the same hex digit are the same nibble.
proof fn lemma_hex_digit_injective(a: u8, b: u8)
    requires
        a < 16,
        b < 16,
        hex_digit(a) == hex_digit(b),
    ensures
        a == b,
{
}

/// Hex encoding is injective.
pub proof fn lemma_hex_of_injective(s1: Seq<u8>, s2: Seq<u8>)
    requires
        hex_of(s1) == hex_of(s2),
    ensures
        s1 == s2,
    decreases s1.len(),
{
    lemma_hex_of_len(s1);
    lemma_hex_of_len(s2);
    if s1.len() == 0 {
        assert(s1 =~= s2);
    } else {
        let a = s1.last();
        let b = s2.last();
        let h1 = hex_of(s1.drop_last());
        let h2 = hex_of(s2.drop_last());
        lemma_hex_of_len(s1.drop_last());
        lemma_hex_of_len(s2.drop_last());
        assert(hex_of(s1)[hex_of(s1).len() - 2] == hex_digit(a / 16));
        assert(hex_of(s1)[hex_of(s1).len() - 1] == hex_digit(a % 16));
        assert(hex_of(s2)[hex_of(s2).len() - 2] == hex_digit(b / 16));
        assert(hex_of(s2)[hex_of(s2).len() - 1] == hex_digit(b % 16));
        lemma_hex_digit_injective(a / 16, b / 16);
        lemma_hex_digit_injective(a % 16, b % 16);
        assert(a == b);
        assert(h1 =~= h2) by {
            assert forall|i: int| 0 <= i < h1.len() implies h1[i] == h2[i] by {
                assert(hex_of(s1)[i] == h1[i]);
                assert(hex_of(s2)[i] == h2[i]);
            }
        }
        lemma_hex_of_injective(s1.drop_last(), s2.drop_last());
        assert(s1 =~= s2) by {
            assert forall|i: int| 0 <= i < s1.len() implies s1[i] == s2[i] by {
                if i < s1.len() - 1 {
                    assert(s1.drop_last()[i] == s1[i]);
                    assert(s2.drop_last()[i] == s2[i]);
                } else {
                    assert(s1[i] == s1.last());
                    assert(s2[i] == s2.last());
                }
            }
        }
    }
}

/// A shared prefix cancels on the left of a byte-string concatenation.
proof fn lemma_concat_cancel_left(p: Seq<u8>, x: Seq<u8>, y: Seq<u8>)
    requires
        p + x == p + y,
    ensures
        x == y,
{
    broadcast use vstd::seq::group_seq_axioms;

    assert((p + x).len() == p.len() + x.len());
    assert((p + y).len() == p.len() + y.len());
    assert(x.len() == y.len());
    assert(x =~= y) by {
        assert forall|i: int| 0 <= i < x.len() implies x[i] == y[i] by {
            vstd::seq::lemma_seq_add_index2_alt::<u8>(p, x, i);
            vstd::seq::lemma_seq_add_index2_alt::<u8>(p, y, i);
            assert((p + x)[i + p.len()] == (p + y)[i + p.len()]);
        }
    }
}

/// Storage-name derivation is injective: the same field never yields the
/// same name for two distinct accounts, and distinct fields never collide
/// at all (their prefixes differ in the first byte).
pub proof fn lemma_names_injective(a: Seq<u8>, b: Seq<u8>)
    ensures
        guardians_name(a) == guardians_name(b) ==> a == b,
        threshold_name(a) == threshold_name(b) ==> a == b,
        initialized_name(a) == initialized_name(b) ==> a == b,
        guardians_name(a) != threshold_name(b),
        guardians_name(a) != initialized_name(b),
        threshold_name(a) != initialized_name(b),
{
    if guardians_name(a) == guardians_name(b) {
        lemma_concat_cancel_left(guardians_prefix(), hex_of(a), hex_of(b));
        lemma_hex_of_injective(a, b);
    }
    if threshold_name(a) == threshold_name(b) {
        lemma_concat_cancel_left(threshold_prefix(), hex_of(a), hex_of(b));
        lemma_hex_of_injective(a, b);
    }
    if initialized_name(a) == initialized_name(b) {
        lemma_concat_cancel_left(initialized_prefix(), hex_of(a), hex_of(b));
        lemma_hex_of_injective(a, b);
    }
    assert(guardians_name(a)[0] == 103u8);
    assert(threshold_name(b)[0] == 116u8);
    assert(initialized_name(b)[0] == 105u8);
    assert(threshold_name(a)[0] == 116u8);
}

/// Appends the lowercase hex encoding of `bytes` to `out`.
fn push_hex(out: &mut Vec<u8>, bytes: &Vec<u8>)
    ensures
        final(out)@ == old(out)@ + hex_of(bytes@),
{
    let mut i: usize = 0;
    while i < bytes.len()
        invariant
            i <= bytes.len(),
            out@ == old(out)@ + hex_of(bytes@.subrange(0, i as int)),
        decreases bytes.len() - i,
    {
        let b = bytes[i];
        out.push(if b / 16 < 10 { 48 + b / 16 } else { 87 + b / 16 });
        out.push(if b % 16 < 10 { 48 + b % 16 } else { 87 + b % 16 });
        proof {
            let s = bytes@.subrange(0, (i + 1) as int);
            assert(s.drop_last() =~= bytes@.subrange(0, i as int));
            assert(s.last() == bytes@[i as int]);
            assert(out@ =~= old(out)@ + hex_of(s));
        }
        i += 1;
    }
    proof {
        assert(bytes@.subrange(0, bytes@.len() as int) =~= bytes@);
    }
}

/// Appends a fixed field prefix, chosen by `which`: 0 for the guardian list,
/// 1 for the threshold, anything else for the initialized flag.
fn push_prefix(out: &mut Vec<u8>, which: u8)
    ensures
        which == 0 ==> final(out)@ == old(out)@ + guardians_prefix(),
        which == 1 ==> final(out)@ == old(out)@ + threshold_prefix(),
        which != 0 && which != 1 ==> final(out)@ == old(out)@ + initialized_prefix(),
{
    if which == 0 {
        out.push(103);
        out.push(117);
        out.push(97);
        out.push(114);
        out.push(100);
        out.push(105);
        out.push(97);
        out.push(110);
        out.push(115);
        out.push(95);
        proof {
            assert(out@ =~= old(out)@ + guardians_prefix());
        }
    } else if which == 1 {
        out.push(116);
        out.push(104);
        out.push(114);
        out.push(101);
        out.push(115);
        out.push(104);
        out.push(111);
        out.push(108);
        out.push(100);
        out.push(95);
        proof {
            assert(out@ =~= old(out)@ + threshold_prefix());
        }
    } else {
        out.push(105);
        out.push(110);
        out.push(105);
        out.push(116);
        out.push(105);
        out.push(97);
        out.push(108);
        out.push(105);
        out.push(122);
        out.push(101);
        out.push(100);
        out.push(95);
        proof {
            assert(out@ =~= old(out)@ + initialized_prefix());
        }
    }
}

/// Name of the guardian-list slot for an account.
pub fn guardians_key(account: &AccountId) -> (r: Vec<u8>)
    ensures
        r@ == guardians_name(account@),
{
    let mut name: Vec<u8> = Vec::new();
    push_prefix(&mut name, 0);
    push_hex(&mut name, account.as_bytes());
    proof {
        assert(name@ =~= guardians_name(account@));
    }
    name
}

/// Name of the threshold slot for an account.
pub fn threshold_key(account: &AccountId) -> (r: Vec<u8>)
    ensures
        r@ == threshold_name(account@),
{
    let mut name: Vec<u8> = Vec::new();
    push_prefix(&mut name, 1);
    push_hex(&mut name, account.as_bytes());
    proof {
        assert(name@ =~= threshold_name(account@));
    }
    name
}

/// Name of the initialized-flag slot for an account.
pub fn initialized_key(account: &AccountId) -> (r: Vec<u8>)
    ensures
        r@ == initialized_name(account@),
{
    let mut name: Vec<u8> = Vec::new();
    push_prefix(&mut name, 2);
    push_hex(&mut name, account.as_bytes());
    proof {
        assert(name@ =~= initialized_name(account@));
    }
    name
}

} // verus!
