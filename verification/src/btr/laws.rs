//! What was packed comes back.
use vstd::arithmetic::power2::{lemma2_to64, lemma_pow2_adds, lemma_pow2_strictly_increases, pow2};
use vstd::prelude::*;

use crate::btr::error::Error;
use crate::btr::fastpfor::{
    block_values, lemma_tail_values_come_back, mini_values, mini_widths, plain_values,
    variable_run, Run,
};
use crate::btr::packing::{
    lemma_packed_values_come_back, packed, packed_value, stream, unpacked, words_needed, words_read,
};
use crate::btr::part::word_at;
use crate::btr::patched::{group_values, lane};
use crate::bytes::{le_bytes, lemma_le_bytes_len, lemma_le_of_le_bytes, lemma_pow_widths};

verus! {

/// A number as `count` words, the lowest first.
pub open spec fn words_of(n: nat, count: nat) -> Seq<u32>
    decreases count,
{
    if count == 0 {
        Seq::empty()
    } else {
        seq![(n % 0x1_0000_0000) as u32] + words_of(n / 0x1_0000_0000, (count - 1) as nat)
    }
}

/// A number that fits in its words is the stream they hold.
proof fn lemma_words_of(n: nat, count: nat)
    requires
        n < pow2(32 * count),
    ensures
        words_of(n, count).len() == count,
        stream(words_of(n, count)) == n,
    decreases count,
{
    lemma2_to64();
    if count > 0 {
        let p = (count - 1) as nat;
        let rest = n / 0x1_0000_0000;
        lemma_pow2_adds(32, 32 * p);
        assert(32 + 32 * p == 32 * count);
        assert(rest < pow2(32 * p)) by (nonlinear_arith)
            requires
                n < 0x1_0000_0000 * pow2(32 * p),
                rest == n / 0x1_0000_0000,
        ;
        lemma_words_of(rest, p);
        assert(words_of(n, count).drop_first() =~= words_of(rest, p));
    } else {
        assert(pow2(0) == 1);
        assert(32 * count == 0);
    }
}

/// Packed values take no more bits than they were given.
proof fn lemma_packed_bound(values: Seq<nat>, width: nat)
    requires
        forall|j: int| 0 <= j < values.len() ==> (#[trigger] values[j]) < pow2(width),
    ensures
        packed(values, width) < pow2(values.len() * width),
    decreases values.len(),
{
    lemma2_to64();
    if values.len() > 0 {
        let tail = values.drop_first();
        let p = tail.len();
        assert forall|j: int| 0 <= j < tail.len() implies (#[trigger] tail[j]) < pow2(width) by {
            assert(tail[j] == values[j + 1]);
        }
        lemma_packed_bound(tail, width);
        lemma_pow2_adds(width, p * width);
        assert(width + p * width == values.len() * width) by (nonlinear_arith)
            requires
                values.len() == p + 1,
        ;
        let m = pow2(width);
        let rest = packed(tail, width);
        let v = values[0];
        assert(v + m * rest < m * pow2(p * width)) by (nonlinear_arith)
            requires
                v < m,
                rest < pow2(p * width),
        ;
    } else {
        assert(values.len() * width == 0) by (nonlinear_arith)
            requires
                values.len() == 0,
        ;
        assert(pow2(0) == 1);
    }
}

/// Words as bytes.
pub open spec fn word_bytes(words: Seq<u32>) -> Seq<u8>
    decreases words.len(),
{
    if words.len() == 0 {
        Seq::empty()
    } else {
        word_bytes(words.drop_last()) + le_bytes(words.last() as nat, 4)
    }
}

/// A word lies four bytes behind the one before it.
proof fn lemma_word_bytes(words: Seq<u32>, k: int)
    requires
        0 <= k < words.len(),
    ensures
        word_bytes(words).len() == 4 * words.len(),
        word_bytes(words).subrange(4 * k, 4 * k + 4) == le_bytes(words[k] as nat, 4),
    decreases words.len(),
{
    let init = words.drop_last();
    lemma_word_bytes_len(init);
    lemma_le_bytes_len(words.last() as nat, 4);
    if k < init.len() {
        lemma_word_bytes(init, k);
        assert(word_bytes(words).subrange(4 * k, 4 * k + 4) =~= word_bytes(init).subrange(
            4 * k,
            4 * k + 4,
        ));
    } else {
        assert(word_bytes(words).subrange(4 * k, 4 * k + 4) =~= le_bytes(words[k] as nat, 4));
    }
}

/// Words take four bytes each.
proof fn lemma_word_bytes_len(words: Seq<u32>)
    ensures
        word_bytes(words).len() == 4 * words.len(),
    decreases words.len(),
{
    if words.len() > 0 {
        lemma_word_bytes_len(words.drop_last());
        lemma_le_bytes_len(words.last() as nat, 4);
    }
}

/// Words that lie `stride` words apart are read back from where they lie.
proof fn lemma_words_read_back(
    front: Seq<u8>,
    words: Seq<u32>,
    back: Seq<u8>,
    j: nat,
    stride: nat,
    n: nat,
    what: &'static str,
)
    requires
        n > 0 ==> j + stride * (n - 1) < words.len(),
    ensures
        words_read(front + word_bytes(words) + back, front.len() as int + 4 * j, stride, n, what) == Ok::<
            Seq<u32>,
            Error,
        >(Seq::new(n, |k: int| words[j + stride * k])),
    decreases n,
{
    let all = front + word_bytes(words) + back;
    let read = Seq::new(n, |k: int| words[j + stride * k]);
    if n > 0 {
        let k = n - 1;
        let p = j + stride * k;
        assert(stride * (n - 2) <= stride * (n - 1) && 0 <= stride * k) by (nonlinear_arith)
            requires
                n > 0,
                k == n - 1,
        ;
        lemma_words_read_back(front, words, back, j, stride, k as nat, what);
        lemma_word_bytes(words, p);
        let at = front.len() + 4 * p;
        assert(front.len() + 4 * j + 4 * stride * (n - 1) == at) by (nonlinear_arith)
            requires
                at == front.len() + 4 * (j + stride * (n - 1)),
        ;
        assert(all.subrange(at, at + 4) =~= word_bytes(words).subrange(4 * p, 4 * p + 4));
        lemma_pow_widths();
        lemma_le_of_le_bytes(words[p] as nat, 4);
        assert(word_at(all, at, what) == Ok::<u32, Error>(words[p]));
        assert(Seq::new(k as nat, |k: int| words[j + stride * k]).push(words[p]) =~= read);
    } else {
        assert(read =~= Seq::<u32>::empty());
    }
}

/// Values as plain numbers.
pub open spec fn numbers(values: Seq<u32>) -> Seq<nat> {
    Seq::new(values.len(), |i: int| values[i] as nat)
}

/// Whether every value fits in `width` bits.
pub open spec fn narrow(values: Seq<u32>, width: nat) -> bool {
    forall|i: int| 0 <= i < values.len() ==> (#[trigger] values[i]) < pow2(width)
}

/// Values packed at `width` bits.
pub open spec fn packed_bytes(values: Seq<u32>, width: nat) -> Seq<u8> {
    word_bytes(words_of(packed(numbers(values), width), words_needed(values.len(), width)))
}

/// Up to thirty two values that were packed come back, at every width they fit in.
pub proof fn lemma_packed_run_comes_back(
    front: Seq<u8>,
    values: Seq<u32>,
    width: nat,
    back: Seq<u8>,
    what: &'static str,
)
    requires
        values.len() <= 32,
        width <= 32,
        narrow(values, width),
    ensures
        packed_bytes(values, width).len() == 4 * words_needed(values.len(), width),
        unpacked(
            front + packed_bytes(values, width) + back,
            front.len() as int,
            1,
            width,
            values.len(),
            what,
        ) == Ok::<Seq<u32>, Error>(values),
{
    let n = numbers(values);
    let bits = values.len() * width;
    let needed = words_needed(values.len(), width);
    let words = words_of(packed(n, width), needed);
    assert forall|j: int| 0 <= j < n.len() implies (#[trigger] n[j]) < pow2(width) by {
        assert(values[j] < pow2(width));
    }
    lemma_packed_bound(n, width);
    if bits < 32 * needed {
        lemma_pow2_strictly_increases(bits, 32 * needed);
    }
    lemma_words_of(packed(n, width), needed);
    lemma_word_bytes_len(words);
    lemma_words_read_back(front, words, back, 0, 1, needed, what);
    assert(Seq::new(needed, |k: int| words[0 + 1 * k]) =~= words);
    let read = Seq::new(values.len(), |i: int| packed_value(words, width, i as nat) as u32);
    assert forall|i: int| 0 <= i < values.len() implies #[trigger] read[i] == values[i] by {
        lemma_packed_values_come_back(words, n, width, i as nat);
    }
    assert(read =~= values);
}

/// The values of one of four lanes: every fourth one.
pub open spec fn lane_values(values: Seq<u32>, j: int) -> Seq<u32> {
    Seq::new(32, |i: int| values[4 * i + j])
}

/// The words one of four lanes is packed into.
pub open spec fn lane_words(values: Seq<u32>, width: nat, j: int) -> Seq<u32> {
    words_of(packed(numbers(lane_values(values, j)), width), width)
}

/// A hundred and twenty eight values packed at `width` bits in four lanes, whose words take turns.
pub open spec fn group_bytes(values: Seq<u32>, width: nat) -> Seq<u8> {
    word_bytes(Seq::new(4 * width, |p: int| lane_words(values, width, p % 4)[p / 4]))
}

/// One lane of a group that was packed comes back.
proof fn lemma_lane_comes_back(
    front: Seq<u8>,
    values: Seq<u32>,
    width: nat,
    back: Seq<u8>,
    j: nat,
)
    requires
        j < 4,
        values.len() == 128,
        width <= 32,
        narrow(values, width),
    ensures
        lane(front + group_bytes(values, width) + back, front.len() as int, width, j as int) == Ok::<
            Seq<u32>,
            Error,
        >(lane_values(values, j as int)),
{
    let what = "a vectorised packed group";
    let mine = lane_values(values, j as int);
    let n = numbers(mine);
    let words = lane_words(values, width, j as int);
    let all = Seq::new(4 * width, |p: int| lane_words(values, width, p % 4)[p / 4]);
    assert forall|i: int| 0 <= i < n.len() implies (#[trigger] n[i]) < pow2(width) by {
        assert(values[4 * i + j] < pow2(width));
    }
    lemma_packed_bound(n, width);
    assert(n.len() * width == 32 * width);
    lemma_words_of(packed(n, width), width);
    assert(words_needed(32, width) == width);
    lemma_words_read_back(front, all, back, j, 4, width, what);
    let taken = Seq::new(width, |k: int| all[j + 4 * k]);
    assert forall|k: int| 0 <= k < width implies #[trigger] taken[k] == words[k] by {
        assert((j + 4 * k) % 4 == j && (j + 4 * k) / 4 == k);
    }
    assert(taken =~= words);
    let read = Seq::new(32, |i: int| packed_value(words, width, i as nat) as u32);
    assert forall|i: int| 0 <= i < 32 implies #[trigger] read[i] == mine[i] by {
        lemma_packed_values_come_back(words, n, width, i as nat);
    }
    assert(read =~= mine);
}

/// A group that was packed in four lanes comes back, at every width its values fit in.
pub proof fn lemma_group_comes_back(front: Seq<u8>, values: Seq<u32>, width: nat, back: Seq<u8>)
    requires
        values.len() == 128,
        width <= 32,
        narrow(values, width),
    ensures
        group_bytes(values, width).len() == 16 * width,
        group_values(front + group_bytes(values, width) + back, front.len() as int, width) == Ok::<
            Seq<u32>,
            Error,
        >(values),
{
    let all = front + group_bytes(values, width) + back;
    let at = front.len() as int;
    lemma_word_bytes_len(Seq::new(4 * width, |p: int| lane_words(values, width, p % 4)[p / 4]));
    lemma_lane_comes_back(front, values, width, back, 0);
    lemma_lane_comes_back(front, values, width, back, 1);
    lemma_lane_comes_back(front, values, width, back, 2);
    lemma_lane_comes_back(front, values, width, back, 3);
    let read = group_values(all, at, width)->Ok_0;
    assert forall|p: int| 0 <= p < 128 implies #[trigger] read[p] == values[p] by {
        assert(p % 4 == 0 || p % 4 == 1 || p % 4 == 2 || p % 4 == 3);
        assert(lane(all, at, width, p % 4)->Ok_0 == lane_values(values, p % 4));
        assert(4 * (p / 4) + p % 4 == p);
    }
    assert(read =~= values);
}

/// A value that did not fit is its low bits with the exception put back above them.
pub proof fn lemma_patched_value_comes_back(v: u32, width: u32)
    requires
        width < 32,
    ensures
        (v & !(0xFFFF_FFFFu32 << width)) | ((v >> width) << width) == v,
{
    assert((v & !(0xFFFF_FFFFu32 << width)) | ((v >> width) << width) == v) by (bit_vector)
        requires
            width < 32,
    ;
}

/// Runs of thirty two values, each packed at its own width.
pub open spec fn minis_bytes(values: Seq<u32>, widths: Seq<u8>, n: nat) -> Seq<u8>
    decreases n,
{
    if n == 0 {
        Seq::empty()
    } else {
        minis_bytes(values, widths, (n - 1) as nat) + packed_bytes(
            values.subrange(32 * (n - 1), 32 * (n as int)),
            widths[n - 1] as nat,
        )
    }
}

/// A hundred and twenty eight values, and the widths their four runs are packed at.
pub ghost struct Block {
    /// The values.
    pub values: Seq<u32>,
    /// The widths.
    pub widths: Seq<u8>,
}

impl Block {
    /// Whether every value fits in the width of its run.
    pub open spec fn wf(self) -> bool {
        &&& self.values.len() == 128
        &&& self.widths.len() == 4
        &&& forall|j: int|
            0 <= j < 4 ==> (#[trigger] self.widths[j]) <= 32 && narrow(
                self.values.subrange(32 * j, 32 * (j + 1)),
                self.widths[j] as nat,
            )
    }

    /// The block as bytes: the widths, the last first, and then the runs.
    pub open spec fn bytes(self) -> Seq<u8> {
        seq![self.widths[3], self.widths[2], self.widths[1], self.widths[0]] + minis_bytes(
            self.values,
            self.widths,
            4,
        )
    }
}

/// Runs that were packed come back.
proof fn lemma_minis_come_back(front: Seq<u8>, b: Block, n: nat, back: Seq<u8>)
    requires
        b.wf(),
        n <= 4,
    ensures
        mini_values(
            front + minis_bytes(b.values, b.widths, n) + back,
            front.len() as int,
            b.widths,
            n,
        ) == Ok::<Run, Error>(
            Run {
                values: b.values.take(32 * (n as int)),
                at: front.len() as int + minis_bytes(b.values, b.widths, n).len(),
            },
        ),
    decreases n,
{
    let all = front + minis_bytes(b.values, b.widths, n) + back;
    if n > 0 {
        let k = n - 1;
        let before = minis_bytes(b.values, b.widths, k as nat);
        let one = b.values.subrange(32 * k, 32 * (n as int));
        let width = b.widths[k];
        let mini = packed_bytes(one, width as nat);
        assert(words_needed(32, width as nat) == width);
        assert(32 * n == 32 * (k + 1));
        assert(all =~= front + before + (mini + back));
        lemma_minis_come_back(front, b, k as nat, mini + back);
        assert(all =~= (front + before) + mini + back);
        lemma_packed_run_comes_back(
            front + before,
            one,
            width as nat,
            back,
            "a bit packed miniblock",
        );
        assert(b.values.take(32 * k) + one =~= b.values.take(32 * (n as int)));
    } else {
        assert(b.values.take(0) =~= Seq::<u32>::empty());
    }
}

/// Blocks as bytes, one after the other.
pub open spec fn blocks_bytes(blocks: Seq<Block>) -> Seq<u8>
    decreases blocks.len(),
{
    if blocks.len() == 0 {
        Seq::empty()
    } else {
        blocks_bytes(blocks.drop_last()) + blocks.last().bytes()
    }
}

/// The values of some blocks.
pub open spec fn blocks_values(blocks: Seq<Block>) -> Seq<u32>
    decreases blocks.len(),
{
    if blocks.len() == 0 {
        Seq::empty()
    } else {
        blocks_values(blocks.drop_last()) + blocks.last().values
    }
}

/// Whether every block can be packed.
pub open spec fn all_packable(blocks: Seq<Block>) -> bool {
    forall|k: int| 0 <= k < blocks.len() ==> (#[trigger] blocks[k]).wf()
}

/// Blocks that were packed behind a word come back.
proof fn lemma_blocks_come_back(front: Seq<u8>, blocks: Seq<Block>, back: Seq<u8>)
    requires
        front.len() == 4,
        all_packable(blocks),
    ensures
        block_values(front + blocks_bytes(blocks) + back, blocks.len()) == Ok::<Run, Error>(
            Run { values: blocks_values(blocks), at: 4 + blocks_bytes(blocks).len() as int },
        ),
        blocks_values(blocks).len() == 128 * blocks.len(),
    decreases blocks.len(),
{
    let all = front + blocks_bytes(blocks) + back;
    if blocks.len() > 0 {
        let init = blocks.drop_last();
        let b = blocks.last();
        assert forall|k: int| 0 <= k < init.len() implies (#[trigger] init[k]).wf() by {
            assert(blocks[k].wf());
        }
        assert(blocks[blocks.len() - 1].wf());
        assert(all =~= front + blocks_bytes(init) + (b.bytes() + back));
        lemma_blocks_come_back(front, init, b.bytes() + back);
        let before = front + blocks_bytes(init);
        let at = before.len() as int;
        let w = seq![b.widths[3], b.widths[2], b.widths[1], b.widths[0]];
        let runs = minis_bytes(b.values, b.widths, 4);
        assert(all =~= (before + w) + runs + back);
        assert(mini_widths(all, at) =~= b.widths);
        lemma_minis_come_back(before + w, b, 4, back);
        assert(b.values.take(128) =~= b.values);
        assert(word_at(all, at, "a bit packed block") is Ok);
    }
}

/// A column of packed blocks and a tail reads as exactly the values that were packed, whatever the
/// widths of the runs were.
pub proof fn lemma_plain_column_comes_back(
    blocks: Seq<Block>,
    tail: Seq<u32>,
    fill: Seq<u8>,
    data: Seq<u8>,
    words: nat,
)
    requires
        all_packable(blocks),
        128 * blocks.len() <= u32::MAX,
        data == le_bytes(128 * blocks.len(), 4) + blocks_bytes(blocks) + variable_run(tail) + fill,
        data.len() == 4 * words,
    ensures
        plain_values(data, words, 128 * blocks.len() + tail.len()) == Ok::<Seq<u32>, Error>(
            blocks_values(blocks) + tail,
        ),
{
    let count = 128 * blocks.len();
    let head = le_bytes(count, 4);
    lemma_le_bytes_len(count, 4);
    lemma_pow_widths();
    lemma_le_of_le_bytes(count, 4);
    assert(data.take((4 * words) as int) =~= data);
    assert(data.subrange(0, 4) =~= head);
    assert(word_at(data, 0, "a bit packed column") == Ok::<u32, Error>(count as u32));
    assert(count % 128 == 0);
    assert(count / 128 == blocks.len());
    assert(data =~= head + blocks_bytes(blocks) + (variable_run(tail) + fill));
    lemma_blocks_come_back(head, blocks, variable_run(tail) + fill);
    let before = head + blocks_bytes(blocks);
    assert(data =~= before + variable_run(tail) + fill);
    lemma_tail_values_come_back(before, tail, fill);
}

/// Packed values take as many words as their bits fill, and no more.
pub proof fn lemma_words_are_as_many_as_the_bits_fill(count: nat, width: nat)
    ensures
        count * width <= 32 * words_needed(count, width) < count * width + 32,
{
}

} // verus!
