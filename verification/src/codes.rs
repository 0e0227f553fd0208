//! The codes that a block brings along, as a compressor writes them.
use vstd::arithmetic::power2::lemma2_to64;
use vstd::prelude::*;

use crate::bits::bits_value;
use crate::huffman::{has_room, same_length};
use crate::roundtrip::{
    has_code, holds_at, lemma_holds_split, lemma_low_first, low_first, symbol_reads_back,
    write_symbol,
};
use crate::tables::{block_tables, meta_lengths, read_run, read_runs, Tables, ORDER};

verus! {

/// A run of code lengths.
pub enum Run {
    /// A length, once.
    Length(u8),
    /// The length before it again, three times and as often more.
    Again(nat),
    /// The length 0, three times and as often more.
    Zeros(nat),
    /// The length 0, eleven times and as often more.
    ManyZeros(nat),
}

/// The symbol of the code length code that a run is written with.
pub open spec fn run_symbol(run: Run) -> int {
    match run {
        Run::Length(length) => length as int,
        Run::Again(_) => 16,
        Run::Zeros(_) => 17,
        Run::ManyZeros(_) => 18,
    }
}

/// The code length code can express the run.
pub open spec fn can_write_run(meta: Seq<u8>, run: Run) -> bool {
    &&& has_code(meta, run_symbol(run))
    &&& match run {
        Run::Length(length) => length <= 15,
        Run::Again(more) => more < 4,
        Run::Zeros(more) => more < 8,
        Run::ManyZeros(more) => more < 128,
    }
}

/// The extra bits of a run as they are written.
pub open spec fn run_extra(run: Run) -> Seq<bool> {
    match run {
        Run::Length(_) => Seq::empty(),
        Run::Again(more) => low_first(more, 2),
        Run::Zeros(more) => low_first(more, 3),
        Run::ManyZeros(more) => low_first(more, 7),
    }
}

/// The runs as they are written.
pub open spec fn write_runs(meta: Seq<u8>, runs: Seq<Run>) -> Seq<bool>
    decreases runs.len(),
{
    if runs.len() == 0 {
        Seq::empty()
    } else {
        write_symbol(meta, run_symbol(runs[0])) + (run_extra(runs[0]) + write_runs(
            meta,
            runs.drop_first(),
        ))
    }
}

/// The lengths of a run behind the lengths `so_far`; `None` where there is no length before it
/// that could come again.
pub open spec fn run_lengths(so_far: Seq<u8>, run: Run) -> Option<Seq<u8>> {
    match run {
        Run::Length(length) => Some(seq![length]),
        Run::Again(more) => if so_far.len() > 0 {
            Some(same_length(3 + more, so_far.last()))
        } else {
            None
        },
        Run::Zeros(more) => Some(same_length(3 + more, 0)),
        Run::ManyZeros(more) => Some(same_length(11 + more, 0)),
    }
}

/// The lengths `so_far` with those of the runs behind them.
pub open spec fn all_lengths(so_far: Seq<u8>, runs: Seq<Run>) -> Option<Seq<u8>>
    decreases runs.len(),
{
    if runs.len() == 0 {
        Some(so_far)
    } else {
        match run_lengths(so_far, runs[0]) {
            Some(more) => all_lengths(so_far + more, runs.drop_first()),
            None => None,
        }
    }
}

/// What a compressor writes of the codes of a block.
pub struct Codes {
    /// The lengths of the literal and length code.
    pub lit: Seq<u8>,
    /// The lengths of the distance code.
    pub dist: Seq<u8>,
    /// The lengths of the code length code.
    pub meta: Seq<u8>,
    /// How many of these are written; the others are 0.
    pub n_meta: nat,
    /// The runs of the lengths of both codes.
    pub runs: Seq<Run>,
}

/// The first `n` lengths of the code length code as they are written, in their order.
pub open spec fn write_meta(meta: Seq<u8>, n: nat) -> Seq<bool>
    decreases n,
{
    if n == 0 {
        Seq::empty()
    } else {
        write_meta(meta, (n - 1) as nat) + low_first(meta[ORDER@[n - 1] as int] as nat, 3)
    }
}

/// The codes as they are written: three counts, the code length code, and the runs.
pub open spec fn write_codes(codes: Codes) -> Seq<bool> {
    low_first((codes.lit.len() - 257) as nat, 5) + (low_first((codes.dist.len() - 1) as nat, 5) + (
    low_first((codes.n_meta - 4) as nat, 4) + (write_meta(codes.meta, codes.n_meta) + write_runs(
        codes.meta,
        codes.runs,
    ))))
}

/// The codes can be written: the counts fit, the code length code can express the runs, and
/// the runs give the lengths of both codes, one behind the other.
pub open spec fn can_write_codes(codes: Codes) -> bool {
    &&& 257 <= codes.lit.len() <= 288
    &&& 1 <= codes.dist.len() <= 32
    &&& 4 <= codes.n_meta <= 19
    &&& codes.meta.len() == 19
    &&& forall|i: int| 0 <= i < 19 ==> #[trigger] codes.meta[i] < 8
    &&& forall|k: int| codes.n_meta <= k < 19 ==> codes.meta[#[trigger] ORDER@[k] as int] == 0
    &&& has_room(codes.meta)
    &&& forall|i: int|
        0 <= i < codes.runs.len() ==> can_write_run(codes.meta, #[trigger] codes.runs[i])
    &&& all_lengths(Seq::empty(), codes.runs) == Some(codes.lit + codes.dist)
    &&& has_room(codes.lit)
    &&& has_room(codes.dist)
}

/// A run that is written is read back.
pub proof fn run_reads_back(meta: Seq<u8>, run: Run, data: Seq<u8>, p: int, so_far: Seq<u8>)
    requires
        has_room(meta),
        can_write_run(meta, run),
        run_lengths(so_far, run) is Some,
        holds_at(data, p, write_symbol(meta, run_symbol(run)) + run_extra(run)),
    ensures
        read_run(meta, data, p, so_far) matches Some((length, n, q)) && Some(same_length(n, length))
            == run_lengths(so_far, run) && q == p + write_symbol(meta, run_symbol(run)).len()
            + run_extra(run).len(),
{
    let s = run_symbol(run);
    let word = write_symbol(meta, s);
    lemma2_to64();
    lemma_holds_split(data, p, word, run_extra(run));
    symbol_reads_back(meta, s, data, p);
    let q = p + word.len();
    match run {
        Run::Length(length) => {
            assert(same_length(1, length) == seq![length]);
        },
        Run::Again(more) => {
            lemma_low_first(data, q, more, 2);
        },
        Run::Zeros(more) => {
            lemma_low_first(data, q, more, 3);
        },
        Run::ManyZeros(more) => {
            lemma_low_first(data, q, more, 7);
        },
    }
}

proof fn lemma_lengths_grow(so_far: Seq<u8>, runs: Seq<Run>)
    ensures
        all_lengths(so_far, runs) matches Some(all) ==> so_far.len() + runs.len() <= all.len(),
    decreases runs.len(),
{
    if runs.len() > 0 {
        if let Some(more) = run_lengths(so_far, runs[0]) {
            lemma_lengths_grow(so_far + more, runs.drop_first());
        }
    }
}

/// Runs that are written are read back.
pub proof fn runs_read_back(
    meta: Seq<u8>,
    runs: Seq<Run>,
    data: Seq<u8>,
    p: int,
    so_far: Seq<u8>,
)
    requires
        has_room(meta),
        forall|i: int| 0 <= i < runs.len() ==> can_write_run(meta, #[trigger] runs[i]),
        all_lengths(so_far, runs) is Some,
        holds_at(data, p, write_runs(meta, runs)),
    ensures
        ({
            let all = all_lengths(so_far, runs)->0;
            read_runs(meta, data, p, so_far, all.len() as int) == Some(
                (all, p + write_runs(meta, runs).len()),
            )
        }),
    decreases runs.len(),
{
    let all = all_lengths(so_far, runs)->0;
    lemma_lengths_grow(so_far, runs);
    if runs.len() > 0 {
        let run = runs[0];
        let rest = runs.drop_first();
        let word = write_symbol(meta, run_symbol(run));
        let extra = run_extra(run);
        let more = run_lengths(so_far, run)->0;
        assert(word + (extra + write_runs(meta, rest)) == word + extra + write_runs(meta, rest));
        lemma_holds_split(data, p, word + extra, write_runs(meta, rest));
        run_reads_back(meta, run, data, p, so_far);
        lemma_lengths_grow(so_far + more, rest);
        runs_read_back(meta, rest, data, p + word.len() + extra.len(), so_far + more);
    }
}

/// Each length of the code length code has one place in the order.
pub proof fn lemma_order()
    ensures
        forall|k: int| 0 <= k < 19 ==> 0 <= #[trigger] ORDER@[k] < 19,
        forall|k: int, j: int| 0 <= k < j < 19 ==> #[trigger] ORDER@[k] != #[trigger] ORDER@[j],
{
}

/// The place in the order of length `i` of the code length code.
pub proof fn lemma_place(i: int) -> (k: int)
    requires
        0 <= i < 19,
    ensures
        0 <= k < 19,
        ORDER@[k] == i,
{
    let places: Seq<int> = seq![
        3, 17, 15, 13, 11, 9, 7, 5, 4, 6, 8, 10, 12, 14, 16, 18, 0, 1, 2,
    ];
    places[i]
}

proof fn lemma_meta(meta: Seq<u8>, data: Seq<u8>, p: int, n: nat)
    requires
        n <= 19,
        meta.len() == 19,
        forall|i: int| 0 <= i < 19 ==> #[trigger] meta[i] < 8,
        holds_at(data, p, write_meta(meta, n)),
    ensures
        write_meta(meta, n).len() == 3 * n,
        meta_lengths(data, p, n).len() == 19,
        forall|k: int|
            0 <= k < 19 ==> meta_lengths(data, p, n)[#[trigger] ORDER@[k] as int] == if k < n {
                meta[ORDER@[k] as int]
            } else {
                0
            },
    decreases n,
{
    lemma_order();
    lemma2_to64();
    if n > 0 {
        let m = (n - 1) as nat;
        let v = meta[ORDER@[m as int] as int];
        lemma_holds_split(data, p, write_meta(meta, m), low_first(v as nat, 3));
        lemma_meta(meta, data, p, m);
        lemma_low_first(data, p + 3 * m, v as nat, 3);
        assert(bits_value(data, p + 3 * m, 3) == v);
    }
}

/// The code length code that is written is read back.
pub proof fn meta_reads_back(meta: Seq<u8>, data: Seq<u8>, p: int, n: nat)
    requires
        n <= 19,
        meta.len() == 19,
        forall|i: int| 0 <= i < 19 ==> #[trigger] meta[i] < 8,
        forall|k: int| n <= k < 19 ==> meta[#[trigger] ORDER@[k] as int] == 0,
        holds_at(data, p, write_meta(meta, n)),
    ensures
        write_meta(meta, n).len() == 3 * n,
        meta_lengths(data, p, n) == meta,
{
    lemma_meta(meta, data, p, n);
    let read = meta_lengths(data, p, n);
    assert forall|i: int| 0 <= i < 19 implies read[i] == meta[i] by {
        let k = lemma_place(i);
        assert(read[ORDER@[k] as int] == meta[ORDER@[k] as int]);
    }
    assert(read == meta);
}

/// Codes that are written are read back.
pub proof fn codes_read_back(codes: Codes, data: Seq<u8>, p: int)
    requires
        can_write_codes(codes),
        holds_at(data, p, write_codes(codes)),
    ensures
        block_tables(data, p) == Some(
            Tables { lit: codes.lit, dist: codes.dist, pos: p + write_codes(codes).len() },
        ),
{
    lemma2_to64();
    let a = low_first((codes.lit.len() - 257) as nat, 5);
    let b = low_first((codes.dist.len() - 1) as nat, 5);
    let c = low_first((codes.n_meta - 4) as nat, 4);
    let d = write_meta(codes.meta, codes.n_meta);
    let e = write_runs(codes.meta, codes.runs);
    lemma_holds_split(data, p, a, b + (c + (d + e)));
    lemma_low_first(data, p, (codes.lit.len() - 257) as nat, 5);
    lemma_holds_split(data, p + 5, b, c + (d + e));
    lemma_low_first(data, p + 5, (codes.dist.len() - 1) as nat, 5);
    lemma_holds_split(data, p + 10, c, d + e);
    lemma_low_first(data, p + 10, (codes.n_meta - 4) as nat, 4);
    lemma_holds_split(data, p + 14, d, e);
    meta_reads_back(codes.meta, data, p + 14, codes.n_meta);
    let q = p + 14 + 3 * codes.n_meta;
    runs_read_back(codes.meta, codes.runs, data, q, Seq::empty());
    let all = codes.lit + codes.dist;
    assert(all.take(codes.lit.len() as int) == codes.lit);
    assert(all.skip(codes.lit.len() as int) == codes.dist);
}

} // verus!
