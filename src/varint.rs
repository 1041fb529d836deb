use vstd::prelude::*;

verus! {

/// Base-128 encoding of `n`: seven bits per byte, least significant group
/// first, the high bit set on every byte but the last.
pub open spec fn varint_bytes(n: nat) -> Seq<u8>
    decreases n,
{
    if n < 128 {
        seq![n as u8]
    } else {
        seq![((n % 128) + 128) as u8] + varint_bytes(n / 128)
    }
}

/// Reads back one base-128 integer from the start of `bytes`.
pub open spec fn varint_value_of(bytes: Seq<u8>) -> nat
    decreases bytes.len(),
{
    if bytes.len() == 0 {
        0
    } else if bytes[0] < 128 {
        bytes[0] as nat
    } else {
        ((bytes[0] - 128) as nat) + 128 * varint_value_of(bytes.drop_first())
    }
}

/// Decoding the base-128 encoding of any natural number gives that number back.
pub proof fn lemma_varint_round_trip(n: nat)
    ensures
        varint_value_of(varint_bytes(n)) == n,
    decreases n,
{
    if n >= 128 {
        lemma_varint_round_trip(n / 128);
        let b = varint_bytes(n);
        assert(b.drop_first() =~= varint_bytes(n / 128));
    }
}

/// Every byte of an encoding but the last has its high bit set, the last
/// has it clear, and an integer below 2^(7k) takes at most k bytes.
pub proof fn lemma_varint_shape(n: nat, k: nat)
    ensures
        varint_bytes(n).len() >= 1,
        forall|i: int| 0 <= i < varint_bytes(n).len() ==> (#[trigger] varint_bytes(n)[i] >= 128 <==> i + 1
            < varint_bytes(n).len()),
        n < vstd::arithmetic::power::pow(128, k) && k >= 1 ==> varint_bytes(n).len() <= k,
    decreases n,
{
    reveal(vstd::arithmetic::power::pow);
    if n >= 128 {
        lemma_varint_shape(n / 128, (k - 1) as nat);
        let b = varint_bytes(n);
        let t = varint_bytes(n / 128);
        assert(b == seq![((n % 128) + 128) as u8] + t);
        assert forall|i: int| 0 <= i < b.len() implies (#[trigger] b[i] >= 128 <==> i + 1 < b.len()) by {
            if i > 0 {
                assert(b[i] == t[i - 1]);
            }
        }
        if n < vstd::arithmetic::power::pow(128, k) && k >= 1 {
            if k == 1 {
                assert(vstd::arithmetic::power::pow(128, 1) == 128 * vstd::arithmetic::power::pow(128, 0));
            } else {
                assert(vstd::arithmetic::power::pow(128, k) == 128 * vstd::arithmetic::power::pow(128, (k - 1) as nat));
                assert(n / 128 < vstd::arithmetic::power::pow(128, (k - 1) as nat)) by (nonlinear_arith)
                    requires
                        n < 128 * vstd::arithmetic::power::pow(128, (k - 1) as nat),
                ;
            }
        }
    }
}

/// Types whose values can be written as base-128 integers.
pub trait ToVarint: Copy {
    spec fn varint_value(self) -> nat;

    fn to_varint(self) -> (r: Vec<u8>)
        ensures
            r@ == varint_bytes(self.varint_value()),
    ;
}

impl ToVarint for usize {
    open spec fn varint_value(self) -> nat {
        self as nat
    }

    fn to_varint(self) -> (r: Vec<u8>) {
        let mut buf: Vec<u8> = Vec::new();
        push_varint(&mut buf, self);
        buf
    }
}

/// Appends the base-128 encoding of `n` to `out`.
pub fn push_varint(out: &mut Vec<u8>, n: usize)
    ensures
        final(out)@ == old(out)@ + varint_bytes(n as nat),
{
    let mut value: usize = n;
    let ghost start = old(out)@;
    while value >= 0x80
        invariant
            start + varint_bytes(n as nat) == out@ + varint_bytes(value as nat),
        decreases value,
    {
        let low: u8 = (value as u8) | 0x80;
        assert(low == ((value % 128) + 128) as u8) by (bit_vector)
            requires
                low == (value as u8) | 0x80,
        ;
        assert(value >> 7 == value / 128) by (bit_vector);
        let ghost before = out@;
        out.push(low);
        value = value >> 7;
        assert(before + varint_bytes((value * 128 + (low - 128)) as nat) =~= out@ + varint_bytes(value as nat));
    }
    out.push(value as u8);
    assert(start + varint_bytes(n as nat) =~= out@);
}

} // verus!
