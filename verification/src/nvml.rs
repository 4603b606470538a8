//! The GPU library's own numbers: its constants, the layout of its replies, and what a reply means.

use vstd::prelude::*;

verus! {

/// The one sensor that is supported everywhere.
pub const NVML_TEMPERATURE_GPU: u32 = 0;

/// The clock of the streaming multiprocessors. 0 is another clock domain, which on many boards shows
/// the same number.
pub const NVML_CLOCK_SM: u32 = 1;

pub const NVML_SUCCESS: i32 = 0;

/// The temperature of the memory.
pub const NVML_FI_DEV_MEMORY_TEMP: u32 = 82;

pub const NVML_VALUE_TYPE_DOUBLE: u32 = 0;

pub const NVML_VALUE_TYPE_UINT: u32 = 1;

pub const NVML_VALUE_TYPE_ULONG: u32 = 2;

pub const NVML_VALUE_TYPE_ULONGLONG: u32 = 3;

pub const NVML_VALUE_TYPE_SIGNED_LONG_LONG: u32 = 4;

pub const NVML_VALUE_TYPE_SIGNED_INT: u32 = 5;

pub const NVML_VALUE_TYPE_UNSIGNED_SHORT: u32 = 6;

/// A reply about memory, in the first layout: what is used holds what the driver keeps for itself.
#[derive(Clone, Copy, PartialEq, Eq, Structural, Debug)]
pub struct NvmlMemory {
    pub total: u64,
    pub free: u64,
    pub used: u64,
}

/// A reply about memory, in the second layout: what the driver keeps for itself stands apart.
#[derive(Clone, Copy, PartialEq, Eq, Structural, Debug)]
pub struct NvmlMemoryV2 {
    pub version: u32,
    pub total: u64,
    pub reserved: u64,
    pub free: u64,
    pub used: u64,
}

/// A reply about one field.
#[derive(Clone, Copy, Debug)]
pub struct NvmlFieldValue {
    pub field_id: u32,
    pub scope_id: u32,
    pub timestamp: i64,
    pub latency_usec: i64,
    pub value_type: u32,
    pub nvml_return: i32,
    /// eight bytes, of which the type says how many count
    pub value: [u8; 8],
}

/// The word by which the library tells a layout: the size in the low three bytes, the version in the
/// top one.
pub fn nvml_struct_version(size: usize, ver: u32) -> (r: u32)
    requires
        size <= u32::MAX,
    ensures
        r == (size as u32) | (ver << 24u32),
{
    (size as u32) | (ver << 24u32)
}

/// The version word of a layout that fits holds both of its parts.
pub proof fn law_version_word_holds_both(size: u32, ver: u32)
    requires
        size < 0x100_0000,
        ver < 0x100,
    ensures
        ((size | (ver << 24u32)) & 0xff_ffff) == size,
        ((size | (ver << 24u32)) >> 24u32) == ver,
{
    assert(((size | (ver << 24u32)) & 0xff_ffff) == size) by (bit_vector)
        requires
            size < 0x100_0000,
            ver < 0x100,
    ;
    assert(((size | (ver << 24u32)) >> 24u32) == ver) by (bit_vector)
        requires
            size < 0x100_0000,
            ver < 0x100,
    ;
}

/// The number that bytes write, with the least byte first or last.
pub open spec fn bytes_value(b: Seq<u8>, little: bool) -> nat
    decreases b.len(),
{
    if b.len() == 0 {
        0
    } else if little {
        b[0] as nat + 256 * bytes_value(b.drop_first(), little)
    } else {
        bytes_value(b.drop_last(), little) * 256 + b.last() as nat
    }
}

/// A number of `n` bytes as the signed number of the same bits.
pub open spec fn signed_value(v: nat, half: nat) -> int {
    if v >= half {
        v - 2 * half
    } else {
        v as int
    }
}

/// What a field's value is.
#[derive(Clone, Copy, PartialEq, Eq, Structural, Debug)]
pub enum NvmlValue {
    /// the bits of a number with a point
    Bits(u64),
    Unsigned(u64),
    Signed(i64),
}

/// What a field's value is: the type says how many of the bytes count, and how. A type that is not
/// known says nothing.
pub open spec fn value_of(value_type: u32, b: Seq<u8>, little: bool) -> Option<NvmlValue> {
    if value_type == NVML_VALUE_TYPE_DOUBLE {
        Some(NvmlValue::Bits(bytes_value(b, little) as u64))
    } else if value_type == NVML_VALUE_TYPE_UINT {
        Some(NvmlValue::Unsigned(bytes_value(b.take(4), little) as u64))
    } else if value_type == NVML_VALUE_TYPE_ULONG || value_type == NVML_VALUE_TYPE_ULONGLONG {
        Some(NvmlValue::Unsigned(bytes_value(b, little) as u64))
    } else if value_type == NVML_VALUE_TYPE_SIGNED_LONG_LONG {
        Some(
            NvmlValue::Signed(
                signed_value(bytes_value(b, little), 0x8000_0000_0000_0000) as i64,
            ),
        )
    } else if value_type == NVML_VALUE_TYPE_SIGNED_INT {
        Some(NvmlValue::Signed(signed_value(bytes_value(b.take(4), little), 0x8000_0000) as i64))
    } else if value_type == NVML_VALUE_TYPE_UNSIGNED_SHORT {
        Some(NvmlValue::Unsigned(bytes_value(b.take(2), little) as u64))
    } else {
        None
    }
}

proof fn lemma_bytes_bound(b: Seq<u8>, little: bool)
    ensures
        bytes_value(b, little) < vstd::arithmetic::power::pow(256, b.len()),
    decreases b.len(),
{
    if b.len() == 0 {
        vstd::arithmetic::power::lemma_pow0(256);
    } else {
        let rest = if little {
            b.drop_first()
        } else {
            b.drop_last()
        };
        lemma_bytes_bound(rest, little);
        reveal(vstd::arithmetic::power::pow);
        assert(vstd::arithmetic::power::pow(256, b.len()) == 256 * vstd::arithmetic::power::pow(
            256,
            rest.len(),
        ));
    }
}

/// The number that the first `n` bytes write.
pub(crate) fn number_of(b: &[u8; 8], n: usize, little: bool) -> (r: u64)
    requires
        n <= 8,
    ensures
        r == bytes_value(b@.take(n as int), little),
        n == 4 ==> r <= u32::MAX,
        n == 2 ==> r <= u16::MAX,
{
    let mut acc: u64 = 0;
    let mut i: usize = 0;
    let ghost all = b@.take(n as int);
    proof {
        reveal_with_fuel(vstd::arithmetic::power::pow, 9);
        lemma_bytes_bound(all, little);
    }
    if little {
        // from the last byte down: what is read is the tail
        assert(all.skip(n as int) =~= Seq::<u8>::empty());
        let mut k: usize = n;
        while k > 0
            invariant
                k <= n <= 8,
                all == b@.take(n as int),
                acc == bytes_value(all.skip(k as int), true),
            decreases k,
        {
            proof {
                assert(all.skip(k - 1).drop_first() =~= all.skip(k as int));
                assert(all.skip(k - 1)[0] == b@[k - 1]);
                reveal_with_fuel(vstd::arithmetic::power::pow, 9);
                lemma_bytes_bound(all.skip(k - 1), true);
                assert(all.skip(k - 1).len() == n - k + 1);
                lemma_pow_small((n - k + 1) as nat);
            }
            acc = acc * 256 + b[k - 1] as u64;
            k -= 1;
        }
        assert(all.skip(0) =~= all);
        return acc;
    }
    while i < n
        invariant
            i <= n <= 8,
            all == b@.take(n as int),
            acc == bytes_value(all.take(i as int), false),
        decreases n - i,
    {
        proof {
            assert(all.take(i + 1).drop_last() =~= all.take(i as int));
            assert(all.take(i + 1).last() == b@[i as int]);
            lemma_bytes_bound(all.take(i + 1), false);
            lemma_pow_small((i + 1) as nat);
        }
        acc = acc * 256 + b[i] as u64;
        i += 1;
    }
    assert(all.take(n as int) =~= all);
    acc
}

proof fn lemma_pow_small(n: nat)
    requires
        n <= 8,
    ensures
        vstd::arithmetic::power::pow(256, n) <= 0x1_0000_0000_0000_0000,
{
    reveal_with_fuel(vstd::arithmetic::power::pow, 9);
}

/// What a field's value is: the type says how many of the bytes count, and how. A type that is not
/// known says nothing. `little` says which end the bytes start at.
pub fn decode_nvml_value(value_type: u32, b: [u8; 8], little: bool) -> (r: Option<NvmlValue>)
    ensures
        r == value_of(value_type, b@, little),
{
    assert(b@.take(8) =~= b@);
    if value_type == NVML_VALUE_TYPE_DOUBLE {
        Some(NvmlValue::Bits(number_of(&b, 8, little)))
    } else if value_type == NVML_VALUE_TYPE_UINT {
        Some(NvmlValue::Unsigned(number_of(&b, 4, little)))
    } else if value_type == NVML_VALUE_TYPE_ULONG || value_type == NVML_VALUE_TYPE_ULONGLONG {
        Some(NvmlValue::Unsigned(number_of(&b, 8, little)))
    } else if value_type == NVML_VALUE_TYPE_SIGNED_LONG_LONG {
        let v: u64 = number_of(&b, 8, little);
        let s: i64 = if v >= 0x8000_0000_0000_0000 {
            (v as i128 - 0x1_0000_0000_0000_0000i128) as i64
        } else {
            v as i64
        };
        Some(NvmlValue::Signed(s))
    } else if value_type == NVML_VALUE_TYPE_SIGNED_INT {
        let v: u64 = number_of(&b, 4, little);
        let s: i64 = if v >= 0x8000_0000 {
            v as i64 - 0x1_0000_0000
        } else {
            v as i64
        };
        Some(NvmlValue::Signed(s))
    } else if value_type == NVML_VALUE_TYPE_UNSIGNED_SHORT {
        Some(NvmlValue::Unsigned(number_of(&b, 2, little)))
    } else {
        None
    }
}

/// The temperature of the memory, from the reply to the question for it: nothing where the library
/// did not answer, the board has none, or the type is not known.
pub fn memory_temp(reply: &Option<NvmlFieldValue>, little: bool) -> (r: Option<NvmlValue>)
    ensures
        r == (match *reply {
            Some(v) if v.nvml_return == NVML_SUCCESS => value_of(v.value_type, v.value@, little),
            _ => None,
        }),
{
    match reply {
        Some(v) => if v.nvml_return == NVML_SUCCESS {
            decode_nvml_value(v.value_type, v.value, little)
        } else {
            None
        },
        None => None,
    }
}

/// Bytes in mebibytes, to the nearest.
pub open spec fn mib(bytes: u64) -> int {
    (bytes + 524_288) / 1_048_576
}

/// What is used and what there is, in mebibytes: from the second layout where it was answered, else
/// from the first.
pub fn memory_mib(v2: Option<NvmlMemoryV2>, v1: Option<NvmlMemory>) -> (r: (Option<u64>, Option<u64>))
    ensures
        r == (match (v2, v1) {
            (Some(m), _) => (Some(mib(m.used) as u64), Some(mib(m.total) as u64)),
            (None, Some(m)) => (Some(mib(m.used) as u64), Some(mib(m.total) as u64)),
            (None, None) => (None::<u64>, None::<u64>),
        }),
{
    match v2 {
        Some(m) => (Some(in_mib(m.used)), Some(in_mib(m.total))),
        None => match v1 {
            Some(m) => (Some(in_mib(m.used)), Some(in_mib(m.total))),
            None => (None, None),
        },
    }
}

fn in_mib(bytes: u64) -> (r: u64)
    ensures
        r == mib(bytes),
{
    ((bytes as u128 + 524_288) / 1_048_576) as u64
}

/// What a read of all boards comes to.
pub enum ReadStep<G> {
    /// these boards were read
    Done(Vec<G>),
    /// the boards are not as many as they were: the whole read is made once more
    Again,
    /// nothing can be read
    GiveUp,
}

/// The boards that could be had, in order.
pub open spec fn had<G>(read: Seq<Option<G>>) -> Seq<G>
    decreases read.len(),
{
    if read.len() == 0 {
        Seq::empty()
    } else {
        let rest = had(read.drop_first());
        match read[0] {
            Some(g) => seq![g] + rest,
            None => rest,
        }
    }
}

/// What attempt number `attempt` (the first is 0) at a read of all boards comes to. `before` and
/// `after` are how many boards there were before the read and after it, where that was answered;
/// `read` are the boards, where a handle of them could be had. A board without a handle is left out;
/// where the count changed meanwhile, the whole read is made once more.
pub fn samples<G>(
    attempt: u32,
    before: Option<u32>,
    after: Option<u32>,
    read: Vec<Option<G>>,
) -> (r: ReadStep<G>)
    ensures
        match (before, after) {
            (Some(b), Some(a)) => if a == b {
                r is Done && r->Done_0@ == had(read@)
            } else if attempt == 0 {
                r is Again
            } else {
                r is GiveUp
            },
            _ => r is GiveUp,
        },
{
    let unchanged = match (before, after) {
        (Some(b), Some(a)) => a == b,
        _ => {
            return ReadStep::GiveUp;
        },
    };
    if !unchanged {
        return if attempt == 0 {
            ReadStep::Again
        } else {
            ReadStep::GiveUp
        };
    }
    let ghost all = read@;
    let mut rest = read;
    let mut out: Vec<G> = Vec::new();
    assert(out@ + had(rest@) =~= had(all));
    while rest.len() > 0
        invariant
            out@ + had(rest@) == had(all),
        decreases rest@.len(),
    {
        let ghost left = rest@;
        let ghost taken = out@;
        let first = rest.remove(0);
        assert(rest@ =~= left.drop_first());
        if let Some(g) = first {
            out.push(g);
            assert(taken + (seq![g] + had(rest@)) =~= out@ + had(rest@));
        }
    }
    assert(out@ + Seq::<G>::empty() =~= out@);
    ReadStep::Done(out)
}

proof fn lemma_all_had<G>(read: Seq<Option<G>>)
    requires
        forall|j: int| 0 <= j < read.len() ==> (#[trigger] read[j]) is Some,
    ensures
        had(read) == Seq::new(read.len(), |j: int| read[j]->0),
    decreases read.len(),
{
    if read.len() > 0 {
        let rest = read.drop_first();
        assert forall|j: int| 0 <= j < rest.len() implies (#[trigger] rest[j]) is Some by {
            assert(rest[j] == read[j + 1]);
        }
        lemma_all_had(rest);
        assert(read[0] is Some);
    }
    assert(had(read) =~= Seq::new(read.len(), |j: int| read[j]->0));
}

/// A board that cannot be had hides no other: all the others are there, in their order.
pub proof fn law_a_dead_board_hides_no_other<G>(read: Seq<Option<G>>, i: int)
    requires
        0 <= i < read.len(),
        read[i] is None,
        forall|j: int| 0 <= j < read.len() && j != i ==> (#[trigger] read[j]) is Some,
    ensures
        had(read) == Seq::new(
            (read.len() - 1) as nat,
            |j: int|
                if j < i {
                    read[j]->0
                } else {
                    read[j + 1]->0
                },
        ),
    decreases read.len(),
{
    let rest = read.drop_first();
    assert forall|j: int| 0 <= j < rest.len() && j != i - 1 implies (#[trigger] rest[j]) is Some by {
        assert(rest[j] == read[j + 1]);
    }
    if i == 0 {
        lemma_all_had(rest);
    } else {
        assert(rest[i - 1] == read[i]);
        assert(read[0] is Some);
        law_a_dead_board_hides_no_other(rest, i - 1);
    }
    assert(had(read) =~= Seq::new(
        (read.len() - 1) as nat,
        |j: int|
            if j < i {
                read[j]->0
            } else {
                read[j + 1]->0
            },
    ));
}

/// Bytes are digits of base 256: with the least first each byte in front counts once and what follows
/// 256 times; with the least last they write what the same bytes write the other way round.
pub proof fn law_bytes_are_digits(b: Seq<u8>, x: u8)
    ensures
        bytes_value(Seq::empty(), true) == 0,
        bytes_value(seq![x] + b, true) == x + 256 * bytes_value(b, true),
        bytes_value(b.push(x), false) == 256 * bytes_value(b, false) + x,
        bytes_value(b, false) == bytes_value(b.reverse(), true),
    decreases b.len(),
{
    assert((seq![x] + b).drop_first() =~= b);
    assert(b.push(x).drop_last() =~= b);
    if b.len() > 0 {
        let rest = b.drop_last();
        law_bytes_are_digits(rest, x);
        assert(b.reverse().drop_first() =~= rest.reverse());
        assert(b.reverse()[0] == b.last());
    } else {
        assert(b.reverse() =~= b);
    }
}

/// A signed number has the bits of the unsigned one: it is the same number, or less by all that its
/// bits can count, and lies in the signed range.
pub proof fn law_a_signed_number_has_the_same_bits(v: nat, half: nat)
    requires
        v < 2 * half,
    ensures
        -half <= signed_value(v, half) < half,
        signed_value(v, half) == v || signed_value(v, half) == v - 2 * half,
{
}

/// What a field's bytes mean is told by its type: the counts are read from two, four or eight bytes and
/// never negative, the signed numbers from four or eight, and another type tells nothing.
pub proof fn law_the_type_tells_what_bytes_mean(b: Seq<u8>, little: bool, t: u32)
    requires
        b.len() == 8,
    ensures
        value_of(0, b, little) == Some(NvmlValue::Bits(bytes_value(b, little) as u64)),
        value_of(1, b, little) == Some(NvmlValue::Unsigned(bytes_value(b.take(4), little) as u64)),
        value_of(2, b, little) == Some(NvmlValue::Unsigned(bytes_value(b, little) as u64)),
        value_of(3, b, little) == value_of(2, b, little),
        value_of(6, b, little) == Some(NvmlValue::Unsigned(bytes_value(b.take(2), little) as u64)),
        value_of(4, b, little) matches Some(NvmlValue::Signed(n)) && (n == bytes_value(b, little) || n
            == bytes_value(b, little) - 0x1_0000_0000_0000_0000),
        value_of(5, b, little) matches Some(NvmlValue::Signed(n)) && -0x8000_0000 <= n < 0x8000_0000
            && (n == bytes_value(b.take(4), little) || n == bytes_value(b.take(4), little)
            - 0x1_0000_0000),
        t > 6 ==> value_of(t, b, little) is None,
{
    lemma_bytes_bound(b, little);
    lemma_bytes_bound(b.take(4), little);
    reveal_with_fuel(vstd::arithmetic::power::pow, 9);
    lemma_pow_small(8);
    law_a_signed_number_has_the_same_bits(bytes_value(b, little), 0x8000_0000_0000_0000);
    law_a_signed_number_has_the_same_bits(bytes_value(b.take(4), little), 0x8000_0000);
}

/// Memory is told to the nearest mebibyte, half of one upwards.
pub proof fn law_memory_is_rounded_to_the_nearest(bytes: u64)
    ensures
        -524_288 < mib(bytes) * 1_048_576 - bytes <= 524_288,
{
}

/// A board is there exactly where it could be had, in its order.
pub proof fn law_a_board_is_there_where_it_was_had<G>(read: Seq<Option<G>>, g: G)
    ensures
        had(Seq::<Option<G>>::empty()).len() == 0,
        had(seq![Some(g)] + read) == seq![g] + had(read),
        had(seq![None] + read) == had(read),
{
    assert((seq![Some(g)] + read).drop_first() =~= read);
    assert((seq![None::<G>] + read).drop_first() =~= read);
}

/// The second layout is believed before the first, and what neither tells is not told. The memory's
/// temperature is told where the library answered for it. A read counts where there were as many boards
/// after it as before; else it is made once more, and then given up.
pub proof fn law_a_reply_counts_where_it_was_given<G>(
    v2: Option<NvmlMemoryV2>,
    v1: Option<NvmlMemory>,
    m: (Option<u64>, Option<u64>),
    attempt: u32,
    before: Option<u32>,
    after: Option<u32>,
    read: Vec<Option<G>>,
    step: ReadStep<G>,
)
    requires
        call_ensures(memory_mib, (v2, v1), m),
        call_ensures(samples::<G>, (attempt, before, after, read), step),
    ensures
        v2 is Some ==> m.0 is Some && m.1 is Some && m.0->0 == mib(v2->0.used) && m.1->0 == mib(
            v2->0.total,
        ),
        v2 is None && v1 is Some ==> m.0 is Some && m.1 is Some && m.0->0 == mib(v1->0.used) && m.1->0
            == mib(v1->0.total),
        v2 is None && v1 is None ==> m.0 is None && m.1 is None,
        step is Done <==> before is Some && after is Some && before->0 == after->0,
        step is Again <==> before is Some && after is Some && before->0 != after->0 && attempt == 0,
        step matches ReadStep::Done(v) ==> v@ == had(read@),
{
}

} // verus!
