//! What a compressor writes is what decompression gives back.
use vstd::arithmetic::power2::{lemma2_to64, lemma_pow2_pos, lemma_pow2_unfold, pow2};
use vstd::prelude::*;

use crate::adler::checksum;
use crate::bits::{aligned, bit_at, bit_len, bits_value, read_bits};
use crate::block::{
    emit, huffman_block, read_token, repeat_back, Progress, Token, DIST_BASE, DIST_EXT, LEN_BASE,
    LEN_EXT,
};
use crate::bytes::be_at;
use crate::codes::{can_write_codes, codes_read_back, write_codes, Codes};
use crate::huffman::{bits_code, code, code_at, has_room, read_symbol};
use crate::inflate::{block_body, blocks, zlib};
use crate::tables::{fixed_dist, fixed_lit};

verus! {

/// The bits `word` stand at position `p`.
pub open spec fn holds_at(data: Seq<u8>, p: int, word: Seq<bool>) -> bool {
    &&& 0 <= p
    &&& p + word.len() <= bit_len(data)
    &&& forall|i: int| 0 <= i < word.len() ==> (#[trigger] word[i]) == (bit_at(data, p + i) == 1)
}

/// `n` bits that spell `v`, the lowest first.
pub open spec fn low_first(v: nat, n: nat) -> Seq<bool>
    decreases n,
{
    if n == 0 {
        Seq::empty()
    } else {
        let half = pow2((n - 1) as nat);
        low_first(v % half, (n - 1) as nat).push(v / half == 1)
    }
}

/// `n` bits that spell `v`, the highest first.
pub open spec fn high_first(v: nat, n: nat) -> Seq<bool>
    decreases n,
{
    if n == 0 {
        Seq::empty()
    } else {
        high_first(v / 2, (n - 1) as nat).push(v % 2 == 1)
    }
}

/// Where two words stand one behind the other, each of them does.
pub proof fn lemma_holds_split(data: Seq<u8>, p: int, a: Seq<bool>, b: Seq<bool>)
    requires
        holds_at(data, p, a + b),
    ensures
        holds_at(data, p, a),
        holds_at(data, p + a.len(), b),
{
    assert forall|i: int| 0 <= i < a.len() implies (#[trigger] a[i]) == (bit_at(data, p + i)
        == 1) by {
        assert((a + b)[i] == a[i]);
    }
    assert forall|i: int| 0 <= i < b.len() implies (#[trigger] b[i]) == (bit_at(
        data,
        p + a.len() + i,
    ) == 1) by {
        assert((a + b)[a.len() + i] == b[i]);
    }
}

/// A number that is written lowest bit first is read back.
pub proof fn lemma_low_first(data: Seq<u8>, p: int, v: nat, n: nat)
    requires
        holds_at(data, p, low_first(v, n)),
        v < pow2(n),
    ensures
        low_first(v, n).len() == n,
        read_bits(data, p, n) == Some(v),
    decreases n,
{
    lemma2_to64();
    if n > 0 {
        let m = (n - 1) as nat;
        let half = pow2(m);
        lemma_pow2_pos(m);
        lemma_pow2_unfold(n);
        let word = low_first(v % half, m);
        assert(low_first(v, n) == word + seq![v / half == 1]);
        lemma_holds_split(data, p, word, seq![v / half == 1]);
        lemma_low_first(data, p, v % half, m);
        vstd::arithmetic::div_mod::lemma_fundamental_div_mod(v as int, half as int);
        assert(v / half <= 1) by (nonlinear_arith)
            requires
                v < 2 * half,
                v == half * (v / half) + v % half,
                0 <= v % half,
                half > 0,
        ;
        let b = bit_at(data, p + m);
        assert(seq![v / half == 1][0] == (b == 1));
        assert(b == v / half);
        assert(b * half == half * (v / half)) by (nonlinear_arith)
            requires
                b == v / half,
        ;
    }
}

proof fn lemma_high_first(data: Seq<u8>, p: int, v: nat, n: nat)
    requires
        holds_at(data, p, high_first(v, n)),
        v < pow2(n),
    ensures
        high_first(v, n).len() == n,
        p + n <= bit_len(data),
        bits_code(data, p, n) == v,
    decreases n,
{
    lemma2_to64();
    if n > 0 {
        let m = (n - 1) as nat;
        lemma_pow2_unfold(n);
        let word = high_first(v / 2, m);
        assert(high_first(v, n) == word + seq![v % 2 == 1]);
        lemma_holds_split(data, p, word, seq![v % 2 == 1]);
        lemma_high_first(data, p, v / 2, m);
        assert(seq![v % 2 == 1][0] == (bit_at(data, p + m) == 1));
    }
}

/// The symbol `s` has a code.
pub open spec fn has_code(lengths: Seq<u8>, s: int) -> bool {
    0 <= s < lengths.len() && 1 <= lengths[s] <= 15
}

/// The code of `s` as it is written.
pub open spec fn write_symbol(lengths: Seq<u8>, s: int) -> Seq<bool> {
    high_first(code(lengths, s), lengths[s] as nat)
}

/// A symbol that is written is read back.
pub proof fn symbol_reads_back(lengths: Seq<u8>, s: int, data: Seq<u8>, p: int)
    requires
        has_room(lengths),
        has_code(lengths, s),
        holds_at(data, p, write_symbol(lengths, s)),
    ensures
        read_symbol(lengths, data, p) == Some(s),
        write_symbol(lengths, s).len() == lengths[s],
{
    crate::huffman::code_fits(lengths, s);
    lemma_high_first(data, p, code(lengths, s), lengths[s] as nat);
    assert(code_at(lengths, s, data, p));
    crate::huffman::lemma_read_symbol(lengths, s, data, p);
}

/// What a compressor puts into a block: a byte, or a copy by its symbols and extra bits.
pub enum Element {
    /// A byte as it is.
    Literal(u8),
    /// A copy.
    Repeat {
        /// Which length symbol, counted from 257.
        len_index: int,
        /// What its extra bits add.
        more_len: nat,
        /// Which distance symbol.
        dist_index: int,
        /// What its extra bits add.
        more_dist: nat,
    },
}

/// The codes can express the element.
pub open spec fn can_write(lit: Seq<u8>, dist: Seq<u8>, e: Element) -> bool {
    match e {
        Element::Literal(byte) => has_code(lit, byte as int),
        Element::Repeat { len_index, more_len, dist_index, more_dist } => {
            &&& 0 <= len_index < 29
            &&& has_code(lit, 257 + len_index)
            &&& more_len < pow2(LEN_EXT@[len_index] as nat)
            &&& 0 <= dist_index < 30
            &&& has_code(dist, dist_index)
            &&& more_dist < pow2(DIST_EXT@[dist_index] as nat)
        },
    }
}

/// The element as it is written.
pub open spec fn write_element(lit: Seq<u8>, dist: Seq<u8>, e: Element) -> Seq<bool> {
    match e {
        Element::Literal(byte) => write_symbol(lit, byte as int),
        Element::Repeat { len_index, more_len, dist_index, more_dist } => write_symbol(
            lit,
            257 + len_index,
        ) + (low_first(more_len, LEN_EXT@[len_index] as nat) + (write_symbol(dist, dist_index)
            + low_first(more_dist, DIST_EXT@[dist_index] as nat))),
    }
}

/// What the element stands for.
pub open spec fn element_token(e: Element) -> Token {
    match e {
        Element::Literal(byte) => Token::Literal(byte),
        Element::Repeat { len_index, more_len, dist_index, more_dist } => Token::Repeat {
            len: (LEN_BASE@[len_index] + more_len) as u16,
            dist: (DIST_BASE@[dist_index] + more_dist) as u16,
        },
    }
}

/// An element that is written is read back.
pub proof fn element_reads_back(
    lit: Seq<u8>,
    dist: Seq<u8>,
    e: Element,
    data: Seq<u8>,
    p: int,
)
    requires
        has_room(lit),
        has_room(dist),
        can_write(lit, dist, e),
        holds_at(data, p, write_element(lit, dist, e)),
    ensures
        read_token(lit, dist, data, p) == Some(
            (element_token(e), p + write_element(lit, dist, e).len()),
        ),
{
    match e {
        Element::Literal(byte) => {
            symbol_reads_back(lit, byte as int, data, p);
        },
        Element::Repeat { len_index, more_len, dist_index, more_dist } => {
            let a = write_symbol(lit, 257 + len_index);
            let b = low_first(more_len, LEN_EXT@[len_index] as nat);
            let c = write_symbol(dist, dist_index);
            let d = low_first(more_dist, DIST_EXT@[dist_index] as nat);
            lemma_holds_split(data, p, a, b + (c + d));
            symbol_reads_back(lit, 257 + len_index, data, p);
            let q = p + a.len();
            lemma_holds_split(data, q, b, c + d);
            lemma_low_first(data, q, more_len, LEN_EXT@[len_index] as nat);
            let r = q + b.len();
            lemma_holds_split(data, r, c, d);
            symbol_reads_back(dist, dist_index, data, r);
            lemma_low_first(data, r + c.len(), more_dist, DIST_EXT@[dist_index] as nat);
        },
    }
}

/// A block's elements and its end as they are written.
pub open spec fn write_block(lit: Seq<u8>, dist: Seq<u8>, es: Seq<Element>) -> Seq<bool>
    decreases es.len(),
{
    if es.len() == 0 {
        write_symbol(lit, 256)
    } else {
        write_element(lit, dist, es[0]) + write_block(lit, dist, es.drop_first())
    }
}

/// The codes can express a block of these elements.
pub open spec fn can_write_block(lit: Seq<u8>, dist: Seq<u8>, es: Seq<Element>) -> bool {
    &&& has_room(lit)
    &&& has_room(dist)
    &&& has_code(lit, 256)
    &&& forall|i: int| 0 <= i < es.len() ==> can_write(lit, dist, #[trigger] es[i])
}

/// `out` after the elements; `None` where a copy reaches back before its start.
pub open spec fn expand(out: Seq<u8>, es: Seq<Element>) -> Option<Seq<u8>>
    decreases es.len(),
{
    if es.len() == 0 {
        Some(out)
    } else {
        match element_token(es[0]) {
            Token::Literal(byte) => expand(out.push(byte), es.drop_first()),
            Token::Repeat { len, dist } => if dist > out.len() {
                None
            } else {
                expand(repeat_back(out, dist as int, len as nat), es.drop_first())
            },
            Token::End => None,
        }
    }
}

proof fn lemma_expand_grows(out: Seq<u8>, es: Seq<Element>)
    ensures
        expand(out, es) matches Some(all) ==> out.len() <= all.len(),
    decreases es.len(),
{
    if es.len() > 0 {
        match element_token(es[0]) {
            Token::Literal(byte) => {
                lemma_expand_grows(out.push(byte), es.drop_first());
            },
            Token::Repeat { len, dist } => {
                lemma_repeat_len(out, dist as int, len as nat);
                lemma_expand_grows(repeat_back(out, dist as int, len as nat), es.drop_first());
            },
            Token::End => {},
        }
    }
}

proof fn lemma_repeat_len(out: Seq<u8>, dist: int, n: nat)
    ensures
        repeat_back(out, dist, n).len() == out.len() + n,
    decreases n,
{
    if n > 0 {
        lemma_repeat_len(out, dist, (n - 1) as nat);
    }
}

/// A compressed block that is written is read back, whatever codes it is written in.
pub proof fn block_reads_back(
    lit: Seq<u8>,
    dist: Seq<u8>,
    es: Seq<Element>,
    data: Seq<u8>,
    p: int,
    out: Seq<u8>,
    max_out: int,
)
    requires
        can_write_block(lit, dist, es),
        holds_at(data, p, write_block(lit, dist, es)),
        expand(out, es) is Some,
        (expand(out, es)->0).len() < max_out,
    ensures
        huffman_block(lit, dist, data, p, out, max_out) == Some(
            Progress {
                pos: p + write_block(lit, dist, es).len(),
                out: expand(out, es)->0,
                capped: false,
            },
        ),
    decreases es.len(),
{
    crate::block::lemma_token_progress(lit, dist, data, p);
    if es.len() == 0 {
        symbol_reads_back(lit, 256, data, p);
    } else {
        let word = write_element(lit, dist, es[0]);
        let rest = es.drop_first();
        lemma_holds_split(data, p, word, write_block(lit, dist, rest));
        element_reads_back(lit, dist, es[0], data, p);
        let next = match element_token(es[0]) {
            Token::Literal(byte) => out.push(byte),
            Token::Repeat { len, dist } => repeat_back(out, dist as int, len as nat),
            Token::End => out,
        };
        lemma_expand_grows(next, rest);
        if let Token::Repeat { len, dist } = element_token(es[0]) {
            lemma_repeat_len(out, dist as int, len as nat);
        }
        assert(emit(out, element_token(es[0]), max_out) == Some(next));
        block_reads_back(lit, dist, rest, data, p + word.len(), next, max_out);
    }
}

/// The low bits of a byte spell its remainder.
proof fn lemma_byte_low_bits(data: Seq<u8>, i: int, k: nat)
    requires
        0 <= i < data.len(),
        k <= 8,
    ensures
        bits_value(data, 8 * i, k) == data[i] as nat % pow2(k),
    decreases k,
{
    lemma2_to64();
    if k > 0 {
        let m = (k - 1) as nat;
        lemma_byte_low_bits(data, i, m);
        lemma_pow2_pos(m);
        lemma_pow2_unfold(k);
        let p = 8 * i;
        let byte = data[i] as int;
        let w = pow2(m) as int;
        vstd::arithmetic::div_mod::lemma_mod_breakdown(byte, w, 2);
        assert((p + m) / 8 == i && (p + m) % 8 == m);
        let b = bit_at(data, p + m);
        assert(b == (byte / w) % 2);
        assert(b * w == w * ((byte / w) % 2)) by (nonlinear_arith)
            requires
                b == (byte / w) % 2,
        ;
        assert(pow2(k) == w * 2);
    }
}

/// The bits of two bytes spell a number of 16 bits, the low byte first.
pub proof fn lemma_two_bytes(data: Seq<u8>, i: int)
    requires
        0 <= i,
        i + 1 < data.len(),
    ensures
        read_bits(data, 8 * i, 16) == Some((data[i] + 256 * data[i + 1]) as nat),
{
    lemma2_to64();
    lemma_second_byte(data, i, 8);
}

proof fn lemma_second_byte(data: Seq<u8>, i: int, k: nat)
    requires
        0 <= i,
        i + 1 < data.len(),
        k <= 8,
    ensures
        bits_value(data, 8 * i, 8 + k) == data[i] + 256 * (data[i + 1] as nat % pow2(k)),
    decreases k,
{
    lemma2_to64();
    if k == 0 {
        lemma_byte_low_bits(data, i, 8);
    } else {
        let m = (k - 1) as nat;
        lemma_second_byte(data, i, m);
        lemma_pow2_pos(m);
        lemma_pow2_unfold(k);
        vstd::arithmetic::power2::lemma_pow2_adds(8, m);
        let byte = data[i + 1] as int;
        let w = pow2(m) as int;
        vstd::arithmetic::div_mod::lemma_mod_breakdown(byte, w, 2);
        assert((8 * i + 8 + m) / 8 == i + 1 && (8 * i + 8 + m) % 8 == m);
        let b = bit_at(data, 8 * i + (8 + k) - 1);
        assert(b == (byte / w) % 2);
        assert(b * pow2(8 + m) == 256 * (w * ((byte / w) % 2))) by (nonlinear_arith)
            requires
                b == (byte / w) % 2,
                pow2(8 + m) == 256 * w,
        ;
        assert(pow2(k) == w * 2);
    }
}

/// What a compressor writes as one block.
pub enum Form {
    /// Bytes as they are.
    Stored(Seq<u8>),
    /// Elements in the fixed codes.
    Fixed(Seq<Element>),
    /// Elements in codes that the block brings along.
    Dynamic(Codes, Seq<Element>),
}

/// The number that a block's header gives to its form.
pub open spec fn form_kind(form: Form) -> nat {
    match form {
        Form::Stored(_) => 0,
        Form::Fixed(_) => 1,
        Form::Dynamic(..) => 2,
    }
}

/// The block's body stands at position `p`, behind its header.
pub open spec fn body_written(data: Seq<u8>, p: int, form: Form) -> bool {
    match form {
        Form::Stored(bytes) => {
            let i = aligned(p) / 8;
            &&& bytes.len() <= 0xffff
            &&& i + 4 + bytes.len() <= data.len()
            &&& data[i] + 256 * data[i + 1] == bytes.len()
            &&& data[i + 2] + 256 * data[i + 3] == 0xffff - bytes.len()
            &&& data.subrange(i + 4, i + 4 + bytes.len()) == bytes
        },
        Form::Fixed(es) => {
            &&& can_write_block(fixed_lit(), fixed_dist(), es)
            &&& holds_at(data, p, write_block(fixed_lit(), fixed_dist(), es))
        },
        Form::Dynamic(codes, es) => {
            &&& can_write_codes(codes)
            &&& can_write_block(codes.lit, codes.dist, es)
            &&& holds_at(data, p, write_codes(codes) + write_block(codes.lit, codes.dist, es))
        },
    }
}

/// The position behind the block's body.
pub open spec fn body_end(p: int, form: Form) -> int {
    match form {
        Form::Stored(bytes) => aligned(p) + 32 + 8 * bytes.len(),
        Form::Fixed(es) => p + write_block(fixed_lit(), fixed_dist(), es).len(),
        Form::Dynamic(codes, es) => p + write_codes(codes).len() + write_block(
            codes.lit,
            codes.dist,
            es,
        ).len(),
    }
}

/// `out` after the block.
pub open spec fn form_output(out: Seq<u8>, form: Form) -> Option<Seq<u8>> {
    match form {
        Form::Stored(bytes) => Some(out + bytes),
        Form::Fixed(es) => expand(out, es),
        Form::Dynamic(_, es) => expand(out, es),
    }
}

/// A block's body that is written is read back.
pub proof fn body_reads_back(data: Seq<u8>, p: int, form: Form, out: Seq<u8>, max_out: int)
    requires
        0 <= p,
        body_written(data, p, form),
        form_output(out, form) is Some,
        (form_output(out, form)->0).len() < max_out,
    ensures
        block_body(form_kind(form), data, p, out, max_out) == Some(
            Progress {
                pos: body_end(p, form),
                out: form_output(out, form)->0,
                capped: false,
            },
        ),
{
    reveal(block_body);
    match form {
        Form::Stored(bytes) => {
            let i = aligned(p) / 8;
            lemma_two_bytes(data, i);
            lemma_two_bytes(data, i + 2);
        },
        Form::Fixed(es) => {
            block_reads_back(fixed_lit(), fixed_dist(), es, data, p, out, max_out);
        },
        Form::Dynamic(codes, es) => {
            let (lit, dist) = (codes.lit, codes.dist);
            lemma_holds_split(data, p, write_codes(codes), write_block(lit, dist, es));
            codes_read_back(codes, data, p);
            lemma_expand_grows(out, es);
            let q = p + write_codes(codes).len();
            block_reads_back(lit, dist, es, data, q, out, max_out);
        },
    }
}

/// The blocks stand from position `p` on, each behind its header, the last one marked.
pub open spec fn blocks_written(data: Seq<u8>, p: int, forms: Seq<Form>) -> bool
    decreases forms.len(),
{
    &&& forms.len() > 0
    &&& read_bits(data, p, 1) == Some(
        if forms.len() == 1 {
            1nat
        } else {
            0
        },
    )
    &&& read_bits(data, p + 1, 2) == Some(form_kind(forms[0]))
    &&& body_written(data, p + 3, forms[0])
    &&& forms.len() > 1 ==> blocks_written(
        data,
        body_end(p + 3, forms[0]),
        forms.drop_first(),
    )
}

/// The position behind the last block.
pub open spec fn blocks_end(p: int, forms: Seq<Form>) -> int
    decreases forms.len(),
{
    if forms.len() == 0 {
        p
    } else {
        blocks_end(body_end(p + 3, forms[0]), forms.drop_first())
    }
}

/// `out` after the blocks.
pub open spec fn blocks_output(out: Seq<u8>, forms: Seq<Form>) -> Option<Seq<u8>>
    decreases forms.len(),
{
    if forms.len() == 0 {
        Some(out)
    } else {
        match form_output(out, forms[0]) {
            Some(more) => blocks_output(more, forms.drop_first()),
            None => None,
        }
    }
}

proof fn lemma_output_grows(out: Seq<u8>, forms: Seq<Form>)
    ensures
        blocks_output(out, forms) matches Some(all) ==> out.len() <= all.len(),
    decreases forms.len(),
{
    if forms.len() > 0 {
        if let Form::Fixed(es) = forms[0] {
            lemma_expand_grows(out, es);
        }
        if let Form::Dynamic(_, es) = forms[0] {
            lemma_expand_grows(out, es);
        }
        if let Some(more) = form_output(out, forms[0]) {
            lemma_output_grows(more, forms.drop_first());
        }
    }
}

/// Blocks that are written are read back.
pub proof fn blocks_read_back(
    data: Seq<u8>,
    p: int,
    forms: Seq<Form>,
    out: Seq<u8>,
    max_out: int,
)
    requires
        0 <= p,
        blocks_written(data, p, forms),
        blocks_output(out, forms) is Some,
        (blocks_output(out, forms)->0).len() < max_out,
    ensures
        blocks(data, p, out, max_out) == Some(
            Progress {
                pos: blocks_end(p, forms),
                out: blocks_output(out, forms)->0,
                capped: false,
            },
        ),
    decreases forms.len(),
{
    let rest = forms.drop_first();
    let end = body_end(p + 3, forms[0]);
    let more = form_output(out, forms[0])->0;
    lemma_output_grows(more, rest);
    body_reads_back(data, p + 3, forms[0], out, max_out);
    crate::inflate::lemma_body_progress(form_kind(forms[0]), data, p + 3, out, max_out);
    if forms.len() > 1 {
        blocks_read_back(data, end, rest, more, max_out);
    } else {
        assert(rest.len() == 0);
    }
}

/// A zlib stream decompresses to what was written into it: blocks of any form, behind a
/// header and, where the stream is complete, before the checksum of the output.
pub proof fn stream_reads_back(data: Seq<u8>, forms: Seq<Form>, max_out: int)
    requires
        data.len() >= 2,
        data[0] % 16 == 8,
        data[1] / 32 % 2 == 0,
        blocks_written(data.skip(2), 0, forms),
        blocks_output(Seq::empty(), forms) is Some,
        (blocks_output(Seq::empty(), forms)->0).len() <= max_out,
        ({
            let i = 2 + aligned(blocks_end(0, forms)) / 8;
            i + 4 <= data.len() ==> be_at(data, i, 4) == checksum(
                blocks_output(Seq::empty(), forms)->0,
            )
        }),
    ensures
        zlib(data, max_out) == blocks_output(Seq::empty(), forms),
{
    let body = data.skip(2);
    blocks_read_back(body, 0, forms, Seq::empty(), max_out + 1);
    let q = aligned(blocks_end(0, forms)) / 8;
    crate::limits::bytes_behind_do_not_matter(body, Seq::empty(), 0, Seq::empty(), max_out + 1);
    if q + 4 <= body.len() {
        assert(body.subrange(q, q + 4) == data.subrange(2 + q, 2 + q + 4));
    }
    crate::limits::limit_gives_prefix(data, max_out, max_out + 1);
    assert(zlib(data, max_out)->0 == zlib(data, max_out + 1)->0);
}

} // verus!
