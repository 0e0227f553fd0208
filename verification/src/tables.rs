//! The codes of compressed blocks: the fixed ones, and those that a block brings along.
use vstd::prelude::*;

use crate::bits::{advance, bit_len, bits_value, read_bits, Bits};
use crate::huffman::{
    count_len, has_room, lemma_count_append, lemma_count_same, lengths_ok, read_symbol,
    same_length, used, Huffman,
};

verus! {

/// The order in which the lengths of the code length code are stored.
pub const ORDER: [usize; 19] = [16, 17, 18, 0, 8, 7, 9, 6, 10, 5, 11, 4, 12, 3, 13, 2, 14, 1, 15];

/// The lengths of the fixed literal and length code.
pub open spec fn fixed_lit() -> Seq<u8> {
    Seq::new(
        288,
        |s: int|
            if s < 144 {
                8u8
            } else if s < 256 {
                9u8
            } else if s < 280 {
                7u8
            } else {
                8u8
            },
    )
}

/// The lengths of the fixed distance code.
pub open spec fn fixed_dist() -> Seq<u8> {
    Seq::new(30, |s: int| 5u8)
}

/// Both fixed codes have room.
pub proof fn fixed_codes_have_room()
    ensures
        has_room(fixed_lit()),
        has_room(fixed_dist()),
{
    let a = same_length(144, 8);
    let b = same_length(112, 9);
    let c = same_length(24, 7);
    let d = same_length(8, 8);
    assert(fixed_lit() == a + b + c + d);
    assert(fixed_dist() == same_length(30, 5));
    assert forall|l: int| true implies #[trigger] count_len(fixed_lit(), l) == if l == 8 {
        152nat
    } else if l == 9 {
        112
    } else if l == 7 {
        24
    } else {
        0
    } by {
        lemma_count_append(a + b + c, d, l);
        lemma_count_append(a + b, c, l);
        lemma_count_append(a, b, l);
        lemma_count_same(144, 8, l);
        lemma_count_same(112, 9, l);
        lemma_count_same(24, 7, l);
        lemma_count_same(8, 8, l);
    }
    assert forall|l: int| true implies #[trigger] count_len(fixed_dist(), l) == if l == 5 {
        30nat
    } else {
        0
    } by {
        lemma_count_same(30, 5, l);
    }
    reveal_with_fuel(used, 16);
    vstd::arithmetic::power2::lemma2_to64();
}

/// The tables of the fixed codes.
pub fn fixed_tables() -> (r: (Huffman, Huffman))
    ensures
        r.0.wf(),
        r.0.lengths() == fixed_lit(),
        r.1.wf(),
        r.1.lengths() == fixed_dist(),
{
    let mut lit = [0u8; 288];
    let mut s: usize = 0;
    while s < 288
        invariant
            s <= 288,
            forall|t: int| 0 <= t < s ==> #[trigger] lit@[t] == fixed_lit()[t],
        decreases 288 - s,
    {
        lit[s] = if s < 144 {
            8
        } else if s < 256 {
            9
        } else if s < 280 {
            7
        } else {
            8
        };
        s += 1;
    }
    let dist = [5u8; 30];
    proof {
        assert(lit@ == fixed_lit());
        assert(dist@ == fixed_dist());
        fixed_codes_have_room();
    }
    (Huffman::build(&lit).unwrap(), Huffman::build(&dist).unwrap())
}

/// The lengths of the code length code after the first `n` of them have been read.
pub open spec fn meta_lengths(data: Seq<u8>, p: int, n: nat) -> Seq<u8>
    decreases n,
{
    if n == 0 {
        Seq::new(19, |i: int| 0u8)
    } else {
        meta_lengths(data, p, (n - 1) as nat).update(
            ORDER@[n - 1] as int,
            bits_value(data, p + 3 * (n - 1), 3) as u8,
        )
    }
}

/// A run of code lengths at position `p`: a length, how often it comes, and the position
/// behind the run. `so_far` holds the lengths before it.
pub open spec fn read_run(meta: Seq<u8>, data: Seq<u8>, p: int, so_far: Seq<u8>) -> Option<
    (u8, nat, int),
> {
    match read_symbol(meta, data, p) {
        None => None,
        Some(s) => {
            let q = p + meta[s];
            if s <= 15 {
                Some((s as u8, 1, q))
            } else if s == 16 {
                match read_bits(data, q, 2) {
                    Some(more) if so_far.len() > 0 => Some((so_far.last(), more + 3, q + 2)),
                    _ => None,
                }
            } else if s == 17 {
                match read_bits(data, q, 3) {
                    Some(more) => Some((0, more + 3, q + 3)),
                    None => None,
                }
            } else if s == 18 {
                match read_bits(data, q, 7) {
                    Some(more) => Some((0, more + 11, q + 7)),
                    None => None,
                }
            } else {
                None
            }
        },
    }
}

/// The runs from position `p` on, until there are `total` lengths in all.
pub open spec fn read_runs(
    meta: Seq<u8>,
    data: Seq<u8>,
    p: int,
    so_far: Seq<u8>,
    total: int,
) -> Option<(Seq<u8>, int)>
    decreases total - so_far.len(),
{
    if so_far.len() >= total {
        Some((so_far, p))
    } else {
        match read_run(meta, data, p, so_far) {
            None => None,
            Some((length, n, q)) => if so_far.len() + n > total {
                None
            } else {
                read_runs(meta, data, q, so_far + same_length(n, length), total)
            },
        }
    }
}

/// Where the reading of a run stops: behind it, or where it turns out to be malformed or cut
/// off.
pub open spec fn run_stop(meta: Seq<u8>, data: Seq<u8>, p: int, so_far: Seq<u8>) -> int {
    match read_symbol(meta, data, p) {
        None => advance(data, p, 15),
        Some(s) => {
            let q = p + meta[s];
            if s == 16 && so_far.len() > 0 {
                advance(data, q, 2)
            } else if s == 17 {
                advance(data, q, 3)
            } else if s == 18 {
                advance(data, q, 7)
            } else {
                q
            }
        },
    }
}

/// Where the reading of runs stops: behind the last one, or where one turns out to be
/// malformed, cut off or too long.
pub open spec fn runs_stop(
    meta: Seq<u8>,
    data: Seq<u8>,
    p: int,
    so_far: Seq<u8>,
    total: int,
) -> int
    decreases total - so_far.len(),
{
    if so_far.len() >= total {
        p
    } else {
        match read_run(meta, data, p, so_far) {
            None => run_stop(meta, data, p, so_far),
            Some((length, n, q)) => if so_far.len() + n > total {
                q
            } else {
                runs_stop(meta, data, q, so_far + same_length(n, length), total)
            },
        }
    }
}

/// The code lengths that a block brings along, and the position behind them.
pub struct Tables {
    /// The lengths of the literal and length code.
    pub lit: Seq<u8>,
    /// The lengths of the distance code.
    pub dist: Seq<u8>,
    /// The position of the first element.
    pub pos: int,
}

/// The codes of a block that brings its own.
pub open spec fn block_tables(data: Seq<u8>, p: int) -> Option<Tables> {
    match (read_bits(data, p, 5), read_bits(data, p + 5, 5), read_bits(data, p + 10, 4)) {
        (Some(lits), Some(dists), Some(metas)) => {
            let n_lit = lits + 257;
            let n_dist = dists + 1;
            let n_meta = metas + 4;
            let q = p + 14 + 3 * n_meta;
            let meta = meta_lengths(data, p + 14, n_meta);
            if q > bit_len(data) || !has_room(meta) {
                None
            } else {
                match read_runs(meta, data, q, Seq::empty(), (n_lit + n_dist) as int) {
                    None => None,
                    Some((lengths, pos)) => {
                        let lit = lengths.take(n_lit as int);
                        let dist = lengths.skip(n_lit as int);
                        if has_room(lit) && has_room(dist) {
                            Some(Tables { lit, dist, pos })
                        } else {
                            None
                        }
                    },
                }
            }
        },
        _ => None,
    }
}

/// Where the reading of a block's codes stops: behind them, or where they turn out to be
/// malformed or cut off.
pub open spec fn tables_stop(data: Seq<u8>, p: int) -> int {
    match (read_bits(data, p, 5), read_bits(data, p + 5, 5), read_bits(data, p + 10, 4)) {
        (Some(lits), Some(dists), Some(metas)) => {
            let n_meta = metas + 4;
            let q = p + 14 + 3 * n_meta;
            let meta = meta_lengths(data, p + 14, n_meta);
            if q <= bit_len(data) && has_room(meta) {
                runs_stop(meta, data, q, Seq::empty(), (lits + 257 + (dists + 1)) as int)
            } else {
                advance(data, p + 14, 3 * n_meta)
            }
        },
        _ => bit_len(data),
    }
}

/// The runs end in the data, not before their start.
proof fn lemma_runs_progress(
    meta: Seq<u8>,
    data: Seq<u8>,
    p: int,
    so_far: Seq<u8>,
    total: int,
)
    requires
        p <= bit_len(data),
    ensures
        read_runs(meta, data, p, so_far, total) matches Some((_, q)) ==> p <= q <= bit_len(data),
    decreases total - so_far.len(),
{
    crate::huffman::lemma_symbol_read(meta, data, p);
    match read_run(meta, data, p, so_far) {
        Some((length, n, q)) => {
            if so_far.len() < total && so_far.len() + n <= total {
                lemma_runs_progress(meta, data, q, so_far + same_length(n, length), total);
            }
        },
        None => {},
    }
}

/// The codes of a block end in the data, behind their start.
pub proof fn lemma_tables_progress(data: Seq<u8>, p: int)
    ensures
        block_tables(data, p) matches Some(tables) ==> p < tables.pos <= bit_len(data),
{
    match (read_bits(data, p, 5), read_bits(data, p + 5, 5), read_bits(data, p + 10, 4)) {
        (Some(lits), Some(dists), Some(metas)) => {
            let n_meta = metas + 4;
            let q = p + 14 + 3 * n_meta;
            if q <= bit_len(data) {
                lemma_runs_progress(
                    meta_lengths(data, p + 14, n_meta),
                    data,
                    q,
                    Seq::empty(),
                    (lits + 257 + (dists + 1)) as int,
                );
            }
        },
        _ => {},
    }
}

/// Reads one run of code lengths.
fn next_run(meta: &Huffman, bits: &mut Bits, so_far: &Vec<u8>) -> (r: Option<(u8, usize)>)
    requires
        meta.wf(),
        old(bits).wf(),
        lengths_ok(so_far@),
    ensures
        final(bits).wf(),
        final(bits).data() == old(bits).data(),
        match read_run(meta.lengths(), old(bits).data(), old(bits).pos(), so_far@) {
            Some((length, n, q)) => r matches Some((r_length, r_n)) && r_length == length && r_n
                == n && final(bits).pos() == q,
            None => r is None,
        },
        final(bits).pos() == run_stop(
            meta.lengths(),
            old(bits).data(),
            old(bits).pos(),
            so_far@,
        ),
        r matches Some((length, n)) ==> length <= 15 && 1 <= n <= 138,
{
    let s = match meta.decode(bits) {
        Some(s) => s,
        None => {
            return None;
        },
    };
    let ghost q = bits.pos();
    proof {
        vstd::arithmetic::power2::lemma2_to64();
        crate::bits::lemma_bits_value_bound(bits.data(), q, 2);
        crate::bits::lemma_bits_value_bound(bits.data(), q, 3);
        crate::bits::lemma_bits_value_bound(bits.data(), q, 7);
    }
    if s <= 15 {
        Some((s as u8, 1))
    } else if s == 16 {
        if so_far.len() == 0 {
            return None;
        }
        match bits.get(2) {
            Some(more) => Some((so_far[so_far.len() - 1], more as usize + 3)),
            None => None,
        }
    } else if s == 17 {
        match bits.get(3) {
            Some(more) => Some((0, more as usize + 3)),
            None => None,
        }
    } else if s == 18 {
        match bits.get(7) {
            Some(more) => Some((0, more as usize + 11)),
            None => None,
        }
    } else {
        None
    }
}

/// Reads the lengths of the code length code.
fn read_meta(bits: &mut Bits, n: usize) -> (r: Option<[u8; 19]>)
    requires
        old(bits).wf(),
        n <= 19,
    ensures
        final(bits).wf(),
        final(bits).data() == old(bits).data(),
        match r {
            Some(meta) => {
                &&& old(bits).pos() + 3 * n <= bit_len(old(bits).data())
                &&& final(bits).pos() == old(bits).pos() + 3 * n
                &&& meta@ == meta_lengths(old(bits).data(), old(bits).pos(), n as nat)
                &&& lengths_ok(meta@)
            },
            None => {
                &&& old(bits).pos() + 3 * n > bit_len(old(bits).data())
                &&& final(bits).pos() == bit_len(old(bits).data())
            },
        },
{
    let ghost data = bits.data();
    let ghost p = bits.pos();
    let mut meta = [0u8; 19];
    assert(meta@ == meta_lengths(data, p, 0));
    let mut k: usize = 0;
    while k < n
        invariant
            k <= n <= 19,
            bits.wf(),
            bits.data() == data,
            data == old(bits).data(),
            p == old(bits).pos(),
            bits.pos() == p + 3 * k,
            meta@ == meta_lengths(data, p, k as nat),
            lengths_ok(meta@),
        decreases n - k,
    {
        let value = match bits.get(3) {
            Some(value) => value,
            None => {
                return None;
            },
        };
        proof {
            vstd::arithmetic::power2::lemma2_to64();
            crate::bits::lemma_bits_value_bound(data, p + 3 * k, 3);
        }
        let i = ORDER[k];
        assert(i < 19);
        meta[i] = value as u8;
        k += 1;
    }
    proof {
        bits.lemma_pos();
    }
    Some(meta)
}

/// Appends `n` times `length`.
fn append_run(lengths: &mut Vec<u8>, length: u8, n: usize)
    ensures
        final(lengths)@ == old(lengths)@ + same_length(n as nat, length),
{
    let mut k: usize = 0;
    while k < n
        invariant
            k <= n,
            lengths@ == old(lengths)@ + same_length(k as nat, length),
        decreases n - k,
    {
        lengths.push(length);
        k += 1;
    }
}

/// Reads runs until there are `total` code lengths.
fn read_lengths(meta: &Huffman, bits: &mut Bits, total: usize) -> (r: Option<Vec<u8>>)
    requires
        meta.wf(),
        old(bits).wf(),
        total <= 320,
    ensures
        final(bits).wf(),
        final(bits).data() == old(bits).data(),
        match read_runs(
            meta.lengths(),
            old(bits).data(),
            old(bits).pos(),
            Seq::empty(),
            total as int,
        ) {
            Some((lengths, q)) => r matches Some(found) && found@ == lengths && lengths.len()
                == total && lengths_ok(lengths) && final(bits).pos() == q,
            None => r is None,
        },
        final(bits).pos() == runs_stop(
            meta.lengths(),
            old(bits).data(),
            old(bits).pos(),
            Seq::empty(),
            total as int,
        ),
{
    let ghost data = bits.data();
    let ghost goal = read_runs(meta.lengths(), data, bits.pos(), Seq::empty(), total as int);
    let ghost stop = runs_stop(meta.lengths(), data, bits.pos(), Seq::empty(), total as int);
    let mut lengths: Vec<u8> = Vec::new();
    while lengths.len() < total
        invariant
            total <= 320,
            meta.wf(),
            bits.wf(),
            bits.data() == data,
            data == old(bits).data(),
            goal == read_runs(
                meta.lengths(),
                old(bits).data(),
                old(bits).pos(),
                Seq::empty(),
                total as int,
            ),
            lengths.len() <= total,
            lengths_ok(lengths@),
            goal == read_runs(meta.lengths(), data, bits.pos(), lengths@, total as int),
            stop == runs_stop(
                meta.lengths(),
                old(bits).data(),
                old(bits).pos(),
                Seq::empty(),
                total as int,
            ),
            stop == runs_stop(meta.lengths(), data, bits.pos(), lengths@, total as int),
        decreases total - lengths.len(),
    {
        let (length, n) = match next_run(meta, bits, &lengths) {
            Some(run) => run,
            None => {
                return None;
            },
        };
        if lengths.len() + n > total {
            return None;
        }
        append_run(&mut lengths, length, n);
    }
    Some(lengths)
}

/// Reads the codes that a block brings along. `None` where they are malformed or cut off.
pub fn dynamic_tables(bits: &mut Bits) -> (r: Option<(Huffman, Huffman)>)
    requires
        old(bits).wf(),
    ensures
        final(bits).wf(),
        final(bits).data() == old(bits).data(),
        match block_tables(old(bits).data(), old(bits).pos()) {
            Some(tables) => {
                &&& r matches Some((lit, dist)) && lit.wf() && dist.wf() && lit.lengths()
                    == tables.lit && dist.lengths() == tables.dist
                &&& final(bits).pos() == tables.pos
            },
            None => r is None,
        },
        final(bits).pos() == tables_stop(old(bits).data(), old(bits).pos()),
{
    let ghost data = bits.data();
    let ghost p = bits.pos();
    proof {
        vstd::arithmetic::power2::lemma2_to64();
        crate::bits::lemma_bits_value_bound(data, p, 5);
        crate::bits::lemma_bits_value_bound(data, p + 5, 5);
        crate::bits::lemma_bits_value_bound(data, p + 10, 4);
    }
    let n_lit = match bits.get(5) {
        Some(n) => n as usize + 257,
        None => {
            return None;
        },
    };
    let n_dist = match bits.get(5) {
        Some(n) => n as usize + 1,
        None => {
            return None;
        },
    };
    let n_meta = match bits.get(4) {
        Some(n) => n as usize + 4,
        None => {
            return None;
        },
    };
    let meta = match read_meta(bits, n_meta) {
        Some(meta) => meta,
        None => {
            return None;
        },
    };
    let meta = match Huffman::build(&meta) {
        Some(meta) => meta,
        None => {
            return None;
        },
    };
    let total = n_lit + n_dist;
    let lengths = match read_lengths(&meta, bits, total) {
        Some(lengths) => lengths,
        None => {
            return None;
        },
    };
    let (lit, dist) = lengths.as_slice().split_at(n_lit);
    let lit = match Huffman::build(lit) {
        Some(lit) => lit,
        None => {
            return None;
        },
    };
    match Huffman::build(dist) {
        Some(dist) => Some((lit, dist)),
        None => None,
    }
}

} // verus!
