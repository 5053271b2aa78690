//! The parts of the Oak ABI that the runtime's rules speak of.
use byteorder::{LittleEndian, ReadBytesExt, WriteBytesExt};
use vstd::prelude::*;

verus! {

/// A handle by which a Node refers to a channel half.
pub type Handle = u64;

/// The handle that refers to nothing.
pub const INVALID_HANDLE: Handle = 0;

/// The space that a handle takes in a list of handles.
pub const BYTES_PER_HANDLE: usize = 8;

/// The space that a handle and its status take in a list of handles to wait on.
pub const SPACE_BYTES_PER_HANDLE: usize = 9;

/// The outcome of an operation of the ABI.
#[derive(PartialEq, Eq, Hash, Clone, Copy, Debug, Structural)]
pub enum OakStatus {
    Okay,
    ErrBadHandle,
    ErrInvalidArgs,
    ErrChannelClosed,
    ErrBufferTooSmall,
    ErrHandleSpaceTooSmall,
    ErrOutOfRange,
    ErrInternal,
    ErrTerminated,
    ErrChannelEmpty,
    ErrPermissionDenied,
}

/// The label of a channel, kept in the form in which diagnostics show it.
pub struct Label {
    pub text: String,
}

impl View for Label {
    type V = Seq<char>;

    open spec fn view(&self) -> Seq<char> {
        self.text@
    }
}

impl OakStatus {
    /// The number that stands for the status in the ABI.
    pub open spec fn spec_code(self) -> u32 {
        match self {
            OakStatus::Okay => 1,
            OakStatus::ErrBadHandle => 2,
            OakStatus::ErrInvalidArgs => 3,
            OakStatus::ErrChannelClosed => 4,
            OakStatus::ErrBufferTooSmall => 5,
            OakStatus::ErrHandleSpaceTooSmall => 6,
            OakStatus::ErrOutOfRange => 7,
            OakStatus::ErrInternal => 8,
            OakStatus::ErrTerminated => 9,
            OakStatus::ErrChannelEmpty => 10,
            OakStatus::ErrPermissionDenied => 11,
        }
    }

    /// Returns the number that stands for the status in the ABI.
    pub fn code(self) -> (r: u32)
        ensures
            r == self.spec_code(),
    {
        match self {
            OakStatus::Okay => 1,
            OakStatus::ErrBadHandle => 2,
            OakStatus::ErrInvalidArgs => 3,
            OakStatus::ErrChannelClosed => 4,
            OakStatus::ErrBufferTooSmall => 5,
            OakStatus::ErrHandleSpaceTooSmall => 6,
            OakStatus::ErrOutOfRange => 7,
            OakStatus::ErrInternal => 8,
            OakStatus::ErrTerminated => 9,
            OakStatus::ErrChannelEmpty => 10,
            OakStatus::ErrPermissionDenied => 11,
        }
    }
}

/// The number that the first eight bytes of `b` stand for, the least significant first.
pub open spec fn le_value(b: Seq<u8>) -> nat {
    (b[0] + 0x100 * b[1] + 0x1_0000 * b[2] + 0x100_0000 * b[3] + 0x1_0000_0000 * b[4]
        + 0x100_0000_0000 * b[5] + 0x1_0000_0000_0000 * b[6] + 0x100_0000_0000_0000 * b[7]) as nat
}

/// The eight bytes that stand for `v`, the least significant first.
pub open spec fn le_bytes(v: u64) -> Seq<u8> {
    seq![
        (v % 0x100) as u8,
        (v / 0x100 % 0x100) as u8,
        (v / 0x1_0000 % 0x100) as u8,
        (v / 0x100_0000 % 0x100) as u8,
        (v / 0x1_0000_0000 % 0x100) as u8,
        (v / 0x100_0000_0000 % 0x100) as u8,
        (v / 0x1_0000_0000_0000 % 0x100) as u8,
        (v / 0x100_0000_0000_0000 % 0x100) as u8,
    ]
}

/// The bytes of a list of handles, one after the other.
pub open spec fn handle_bytes(handles: Seq<Handle>) -> Seq<u8>
    decreases handles.len(),
{
    if handles.len() == 0 {
        Seq::empty()
    } else {
        handle_bytes(handles.drop_last()) + le_bytes(handles.last())
    }
}

/// The handle that starts at the given place.
pub open spec fn handle_at(bytes: Seq<u8>, at: int) -> Handle {
    le_value(bytes.subrange(at, at + 8)) as Handle
}

/// The `count` handles that `bytes` holds, each `stride` bytes after the one before.
pub open spec fn handles_in(bytes: Seq<u8>, stride: nat, count: nat) -> Seq<Handle> {
    Seq::new(count, |i: int| handle_at(bytes, i * stride))
}

/// Reads the first eight bytes as a number, the least significant byte first, with
/// `byteorder::ReadBytesExt::read_u64`, which fails only where fewer bytes are left.
#[verifier::external_body]
fn read_u64(bytes: &[u8]) -> (r: u64)
    requires
        bytes@.len() >= 8,
    ensures
        r == le_value(bytes@),
{
    let mut reader = bytes;
    reader.read_u64::<LittleEndian>().unwrap()
}

/// Appends the eight bytes of a number, the least significant first, with
/// `byteorder::WriteBytesExt::write_u64`, which does not fail on a vector.
#[verifier::external_body]
fn write_u64(out: &mut Vec<u8>, v: u64)
    ensures
        final(out)@ == old(out)@ + le_bytes(v),
{
    out.write_u64::<LittleEndian>(v).unwrap()
}

/// Reads `count` handles from `bytes`, each `stride` bytes after the one before.
pub fn read_handles(bytes: &[u8], stride: usize, count: usize) -> (r: Vec<Handle>)
    requires
        8 <= stride,
        bytes@.len() == stride * count,
    ensures
        r@ == handles_in(bytes@, stride as nat, count as nat),
{
    let mut handles: Vec<Handle> = Vec::new();
    let len: usize = bytes.len();
    let mut i: usize = 0;
    let mut at: usize = 0;
    while i < count
        invariant
            8 <= stride,
            len == bytes@.len(),
            bytes@.len() == stride * count,
            i <= count,
            at == i * stride,
            handles@ == handles_in(bytes@, stride as nat, i as nat),
        decreases count - i,
    {
        proof {
            assert(i * stride + stride <= stride * count) by (nonlinear_arith)
                requires
                    i + 1 <= count,
            ;
            assert((i + 1) * stride == i * stride + stride) by (nonlinear_arith);
        }
        let piece = vstd::slice::slice_subrange(bytes, at, at + 8);
        let handle: Handle = read_u64(piece);
        handles.push(handle);
        assert(handles@ =~= handles_in(bytes@, stride as nat, (i + 1) as nat));
        at = at + stride;
        i = i + 1;
    }
    handles
}

/// Writes a list of handles, one after the other.
pub fn write_handles(handles: &Vec<Handle>) -> (r: Vec<u8>)
    ensures
        r@ == handle_bytes(handles@),
{
    let mut bytes: Vec<u8> = Vec::new();
    let mut i: usize = 0;
    assert(handles@.take(0) =~= Seq::<Handle>::empty());
    while i < handles.len()
        invariant
            i <= handles.len(),
            bytes@ == handle_bytes(handles@.take(i as int)),
        decreases handles.len() - i,
    {
        write_u64(&mut bytes, handles[i]);
        assert(handles@.take(i + 1).drop_last() =~= handles@.take(i as int));
        i = i + 1;
    }
    assert(handles@.take(i as int) =~= handles@);
    bytes
}

/// Distinct statuses have distinct numbers.
pub proof fn law_status_codes_distinct(a: OakStatus, b: OakStatus)
    requires
        a.spec_code() == b.spec_code(),
    ensures
        a == b,
{
}

/// Eight bytes of a number stand for that number.
pub proof fn lemma_le_value_of_bytes(v: u64)
    ensures
        le_value(le_bytes(v)) == v,
{
    let b1 = v / 0x100;
    let b2 = v / 0x1_0000;
    let b3 = v / 0x100_0000;
    let b4 = v / 0x1_0000_0000;
    let b5 = v / 0x100_0000_0000;
    let b6 = v / 0x1_0000_0000_0000;
    let b7 = v / 0x100_0000_0000_0000;
    assert(v == v % 0x100 + 0x100 * b1);
    assert(b1 == b1 % 0x100 + 0x100 * b2);
    assert(b2 == b2 % 0x100 + 0x100 * b3);
    assert(b3 == b3 % 0x100 + 0x100 * b4);
    assert(b4 == b4 % 0x100 + 0x100 * b5);
    assert(b5 == b5 % 0x100 + 0x100 * b6);
    assert(b6 == b6 % 0x100 + 0x100 * b7);
    assert(b7 == b7 % 0x100);
}

/// A list of handles takes eight bytes for each.
pub proof fn lemma_handle_bytes_len(handles: Seq<Handle>)
    ensures
        handle_bytes(handles).len() == 8 * handles.len(),
    decreases handles.len(),
{
    if handles.len() > 0 {
        lemma_handle_bytes_len(handles.drop_last());
    }
}

/// Reading a list of handles gives back the handles that were written.
pub proof fn law_handles_round_trip(handles: Seq<Handle>)
    ensures
        handle_bytes(handles).len() == 8 * handles.len(),
        handles_in(handle_bytes(handles), 8, handles.len()) == handles,
    decreases handles.len(),
{
    lemma_handle_bytes_len(handles);
    let bytes = handle_bytes(handles);
    if handles.len() > 0 {
        let front = handles.drop_last();
        law_handles_round_trip(front);
        assert forall|i: int| 0 <= i < handles.len() implies handle_at(bytes, i * 8)
            == handles[i] by {
            if i < front.len() {
                assert(handle_at(handle_bytes(front), i * 8) == front[i]) by {
                    assert(handles_in(handle_bytes(front), 8, front.len())[i] == front[i]);
                }
                assert(bytes.subrange(i * 8, i * 8 + 8) =~= handle_bytes(front).subrange(
                    i * 8,
                    i * 8 + 8,
                ));
            } else {
                assert(bytes.subrange(i * 8, i * 8 + 8) =~= le_bytes(handles.last()));
                lemma_le_value_of_bytes(handles.last());
            }
        }
    }
    assert(handles_in(bytes, 8, handles.len()) =~= handles);
}

/// Writing the handles that a list of bytes holds gives back the bytes.
pub proof fn law_handle_bytes_round_trip(bytes: Seq<u8>, count: nat)
    requires
        bytes.len() == 8 * count,
    ensures
        handle_bytes(handles_in(bytes, 8, count)) == bytes,
    decreases count,
{
    let handles = handles_in(bytes, 8, count);
    if count > 0 {
        let front = bytes.subrange(0, 8 * (count - 1));
        law_handle_bytes_round_trip(front, (count - 1) as nat);
        assert(handles.drop_last() =~= handles_in(front, 8, (count - 1) as nat)) by {
            assert forall|i: int| 0 <= i < count - 1 implies #[trigger] handles.drop_last()[i]
                == handles_in(front, 8, (count - 1) as nat)[i] by {
                assert(bytes.subrange(i * 8, i * 8 + 8) =~= front.subrange(i * 8, i * 8 + 8));
            }
        }
        let last = bytes.subrange(8 * (count - 1), 8 * count as int);
        assert(handles.last() == le_value(last) as Handle);
        lemma_le_bytes_of_value(last);
        assert(bytes =~= front + last);
    } else {
        assert(bytes =~= Seq::<u8>::empty());
    }
}

/// Taking the lowest byte off a number.
proof fn lemma_lowest_byte(v: int, b: int, rest: int)
    requires
        v == b + 0x100 * rest,
        0 <= b < 0x100,
        0 <= rest,
    ensures
        v % 0x100 == b,
        v / 0x100 == rest,
{
}

/// The number of eight bytes has those bytes.
#[verifier::spinoff_prover]
pub proof fn lemma_le_bytes_of_value(b: Seq<u8>)
    requires
        b.len() == 8,
    ensures
        le_value(b) <= u64::MAX,
        le_bytes(le_value(b) as u64) == b,
{
    let v = le_value(b) as int;
    let c7 = b[7] as int;
    let c6 = b[6] + 0x100 * c7;
    let c5 = b[5] + 0x100 * c6;
    let c4 = b[4] + 0x100 * c5;
    let c3 = b[3] + 0x100 * c4;
    let c2 = b[2] + 0x100 * c3;
    let c1 = b[1] + 0x100 * c2;
    assert(v == b[0] + 0x100 * c1);
    lemma_lowest_byte(v, b[0] as int, c1);
    lemma_lowest_byte(c1, b[1] as int, c2);
    lemma_lowest_byte(c2, b[2] as int, c3);
    lemma_lowest_byte(c3, b[3] as int, c4);
    lemma_lowest_byte(c4, b[4] as int, c5);
    lemma_lowest_byte(c5, b[5] as int, c6);
    lemma_lowest_byte(c6, b[6] as int, c7);
    lemma_lowest_byte(c7, b[7] as int, 0);
    assert(c1 / 0x100 == v / 0x1_0000);
    assert(c2 / 0x100 == v / 0x100_0000);
    assert(c3 / 0x100 == v / 0x1_0000_0000);
    assert(c4 / 0x100 == v / 0x100_0000_0000);
    assert(c5 / 0x100 == v / 0x1_0000_0000_0000);
    assert(c6 / 0x100 == v / 0x100_0000_0000_0000);
    assert(le_bytes(v as u64) =~= b);
}

/// The numbers that stand for the statuses.
pub proof fn law_status_numbers()
    ensures
        OakStatus::Okay.spec_code() == 1,
        OakStatus::ErrBadHandle.spec_code() == 2,
        OakStatus::ErrInvalidArgs.spec_code() == 3,
        OakStatus::ErrChannelClosed.spec_code() == 4,
        OakStatus::ErrBufferTooSmall.spec_code() == 5,
        OakStatus::ErrHandleSpaceTooSmall.spec_code() == 6,
        OakStatus::ErrOutOfRange.spec_code() == 7,
        OakStatus::ErrInternal.spec_code() == 8,
        OakStatus::ErrTerminated.spec_code() == 9,
        OakStatus::ErrChannelEmpty.spec_code() == 10,
        OakStatus::ErrPermissionDenied.spec_code() == 11,
{
}

/// Each handle in a list stands in eight bytes of its own, the least significant first: so
/// many bytes after the one before, and nothing else counts.
pub proof fn law_handles_are_little_endian(bytes: Seq<u8>, stride: nat, count: nat, i: int)
    requires
        8 <= stride,
        bytes.len() == stride * count,
        0 <= i < count,
    ensures
        handles_in(bytes, stride, count).len() == count,
        ({
            let h = handles_in(bytes, stride, count)[i] as int;
            let at = i * stride;
            &&& h % 0x100 == bytes[at]
            &&& h / 0x100 % 0x100 == bytes[at + 1]
            &&& h / 0x1_0000 % 0x100 == bytes[at + 2]
            &&& h / 0x100_0000 % 0x100 == bytes[at + 3]
            &&& h / 0x1_0000_0000 % 0x100 == bytes[at + 4]
            &&& h / 0x100_0000_0000 % 0x100 == bytes[at + 5]
            &&& h / 0x1_0000_0000_0000 % 0x100 == bytes[at + 6]
            &&& h / 0x100_0000_0000_0000 == bytes[at + 7]
        }),
{
    let at = i * stride;
    assert(0 <= at && at + stride <= stride * count) by (nonlinear_arith)
        requires
            0 <= i,
            i + 1 <= count,
            at == i * stride,
    ;
    let b = bytes.subrange(at, at + 8);
    lemma_le_bytes_of_value(b);
    let le = le_bytes(le_value(b) as u64);
    assert forall|j: int| 0 <= j < 8 implies #[trigger] b[j] == bytes[at + j] by {}
    assert(b[0] == le[0] && b[1] == le[1] && b[2] == le[2] && b[3] == le[3]);
    assert(b[4] == le[4] && b[5] == le[5] && b[6] == le[6] && b[7] == le[7]);
}

/// The bytes of a list of handles: eight for each handle, the least significant first.
pub proof fn law_handle_bytes_are_little_endian(handles: Seq<Handle>, i: int)
    requires
        0 <= i < handles.len(),
    ensures
        handle_bytes(handles).len() == 8 * handles.len(),
        ({
            let h = handles[i] as int;
            let bytes = handle_bytes(handles);
            &&& bytes[8 * i] == h % 0x100
            &&& bytes[8 * i + 1] == h / 0x100 % 0x100
            &&& bytes[8 * i + 2] == h / 0x1_0000 % 0x100
            &&& bytes[8 * i + 3] == h / 0x100_0000 % 0x100
            &&& bytes[8 * i + 4] == h / 0x1_0000_0000 % 0x100
            &&& bytes[8 * i + 5] == h / 0x100_0000_0000 % 0x100
            &&& bytes[8 * i + 6] == h / 0x1_0000_0000_0000 % 0x100
            &&& bytes[8 * i + 7] == h / 0x100_0000_0000_0000
        }),
{
    law_handles_round_trip(handles);
    law_handles_are_little_endian(handle_bytes(handles), 8, handles.len(), i);
}

} // verus!
