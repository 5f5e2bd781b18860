//! The result channel of the storage image: a small block in memory that the host polls.
//!
//! Layout: the ready word at +0, the scalar output at +4, the length of the variable result at +8,
//! its bytes from +10 on. The ready word is written last, so the host never sees half a result.

use vstd::prelude::*;

verus! {

/// The place of the ready word.
pub const READY_AT: u32 = 0;

/// The place of the scalar output.
pub const OUTPUT_AT: u32 = 4;

/// The place of the length.
pub const LEN_AT: u32 = 8;

/// The place of the variable result.
pub const BUF_AT: u32 = 10;

/// One store: its offset into the block, and the value.
#[derive(Debug, Clone, Copy, PartialEq, Eq, Structural)]
pub enum ResultWrite {
    Byte(u32, u8),
    Half(u32, u16),
    Word(u32, u32),
}

/// The stores of a scalar result.
pub open spec fn scalar_writes(output: u32, ready: u32) -> Seq<ResultWrite> {
    seq![
        ResultWrite::Word(OUTPUT_AT, output),
        ResultWrite::Half(LEN_AT, 0),
        ResultWrite::Word(READY_AT, ready),
    ]
}

/// The stores of a variable result: its bytes, as many as fit, and the words that go with them.
pub open spec fn var_writes(bytes: Seq<u8>, cap: nat, ready: u32) -> Seq<ResultWrite> {
    let n = vstd::math::min(bytes.len() as int, cap as int);
    Seq::new(
        n as nat,
        |i: int| ResultWrite::Byte((BUF_AT + i) as u32, bytes[i]),
    ) + seq![
        ResultWrite::Word(OUTPUT_AT, 0),
        ResultWrite::Half(LEN_AT, n as u16),
        ResultWrite::Word(READY_AT, ready),
    ]
}

/// The stores that publish a scalar result.
pub fn publish_scalar(output: u32, ready: u32) -> (w: Vec<ResultWrite>)
    ensures
        w@ == scalar_writes(output, ready),
{
    let mut w: Vec<ResultWrite> = Vec::new();
    w.push(ResultWrite::Word(OUTPUT_AT, output));
    w.push(ResultWrite::Half(LEN_AT, 0));
    w.push(ResultWrite::Word(READY_AT, ready));
    assert(w@ =~= scalar_writes(output, ready));
    w
}

/// The stores that publish a variable result, cut to the `cap` bytes that the block has room for.
pub fn publish_var(bytes: &[u8], cap: u16, ready: u32) -> (w: Vec<ResultWrite>)
    ensures
        w@ == var_writes(bytes@, cap as nat, ready),
{
    let n: usize = if bytes.len() > cap as usize {
        cap as usize
    } else {
        bytes.len()
    };
    let mut w: Vec<ResultWrite> = Vec::new();
    let ghost whole = var_writes(bytes@, cap as nat, ready);
    let mut i: usize = 0;
    while i < n
        invariant
            i <= n <= bytes@.len(),
            n <= 0xFFFF,
            n == vstd::math::min(bytes@.len() as int, cap as int),
            whole == var_writes(bytes@, cap as nat, ready),
            w@ =~= whole.take(i as int),
        decreases n - i,
    {
        w.push(ResultWrite::Byte(BUF_AT + i as u32, bytes[i]));
        i += 1;
    }
    w.push(ResultWrite::Word(OUTPUT_AT, 0));
    w.push(ResultWrite::Half(LEN_AT, n as u16));
    w.push(ResultWrite::Word(READY_AT, ready));
    assert(w@ =~= whole);
    w
}

/// Where a store begins.
pub open spec fn place(w: ResultWrite) -> u32 {
    match w {
        ResultWrite::Byte(at, _) => at,
        ResultWrite::Half(at, _) => at,
        ResultWrite::Word(at, _) => at,
    }
}

/// The ready word is stored last, and by nothing else.
pub proof fn lemma_ready_last(output: u32, bytes: Seq<u8>, cap: nat, ready: u32)
    requires
        cap <= 0xFFFF,
    ensures
        scalar_writes(output, ready).last() == (ResultWrite::Word(READY_AT, ready)),
        var_writes(bytes, cap, ready).last() == (ResultWrite::Word(READY_AT, ready)),
        forall|i: int|
            0 <= i < scalar_writes(output, ready).len() - 1 ==> place(
                #[trigger] scalar_writes(output, ready)[i],
            ) >= OUTPUT_AT,
        forall|i: int|
            0 <= i < var_writes(bytes, cap, ready).len() - 1 ==> place(
                #[trigger] var_writes(bytes, cap, ready)[i],
            ) >= OUTPUT_AT,
{
}

/// The scenario that a host command selects: its upper half.
pub fn scenario(cmd: u32) -> (s: u32)
    ensures
        s == cmd / 0x1_0000,
{
    assert(cmd >> 16 == cmd / 0x1_0000) by (bit_vector);
    cmd >> 16
}

/// Where a result stands in the block: a scalar in its word, with no bytes; bytes one behind the
/// other from their place on, with their number, cut to the room there is.
pub proof fn lemma_where_results_stand(output: u32, bytes: Seq<u8>, cap: nat, ready: u32, i: int)
    requires
        cap <= 0xFFFF,
    ensures
        scalar_writes(output, ready).len() == 3,
        scalar_writes(output, ready).contains(ResultWrite::Word(4, output)),
        scalar_writes(output, ready).contains(ResultWrite::Half(8, 0)),
        ({
            let w = var_writes(bytes, cap, ready);
            let n = if bytes.len() < cap { bytes.len() as int } else { cap as int };
            &&& w.len() == n + 3
            &&& 0 <= i < n ==> w[i] == ResultWrite::Byte((10 + i) as u32, bytes[i])
            &&& w[n] == ResultWrite::Word(4, 0)
            &&& w[n + 1] == ResultWrite::Half(8, n as u16)
        }),
{
    assert(scalar_writes(output, ready)[0] == ResultWrite::Word(4, output));
    assert(scalar_writes(output, ready)[1] == ResultWrite::Half(8, 0));
}

} // verus!
