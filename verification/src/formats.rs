//! How the two formats write one primitive: as decimal texts joined by blanks, and as a
//! block of big-endian words; and the law that both are read as the same primitive.
use vstd::prelude::*;

use crate::lex::{blank_end, is_space_byte, spec_float, spec_floats, spec_ws_float, ws};
use crate::numbers::{be_u32_of, byte_float_bits};
use crate::parse_rvm::spec_parse_prim;
use crate::shapes::arity;
use crate::parse_binary::{
    bin_prim_kind, law_prim_kinds_agree, spec_prim_binary, nonzero_end, skip_zeros, spec_be_floats, spec_block_head, spec_cnte_version,
    spec_take_nonzero, spec_zbyte, zero_end,
};

verus! {

/// The texts `ds[i..]`, joined by single blanks.
pub open spec fn joined(ds: Seq<Seq<u8>>, i: int) -> Seq<u8>
    decreases ds.len() - i,
{
    if i < 0 || i >= ds.len() {
        Seq::empty()
    } else if i == ds.len() - 1 {
        ds[i]
    } else {
        ds[i] + seq![32u8] + joined(ds, i + 1)
    }
}

/// What follows the text `ds[i]` in `joined(ds, 0)`: a blank and the texts after it, or
/// nothing after the last.
pub open spec fn after_text(ds: Seq<Seq<u8>>, i: int) -> Seq<u8> {
    if i + 1 >= ds.len() {
        Seq::empty()
    } else {
        seq![32u8] + joined(ds, i + 1)
    }
}

/// The text from the `i`-th number on: all of it for the first, and for a later one
/// the blank before it too.
pub open spec fn text_from(ds: Seq<Seq<u8>>, i: int) -> Seq<u8> {
    if i == 0 {
        joined(ds, 0)
    } else {
        after_text(ds, i - 1)
    }
}

/// The text `ds[i]` is the number `xs[i]` as nom reads it where it stands: it starts
/// with no blank, and nom's float reader, given the text from it on, reads `xs[i]` and
/// stops just after it.
pub open spec fn number_at(ds: Seq<Seq<u8>>, xs: Seq<u32>, i: int) -> bool {
    &&& ds[i].len() > 0
    &&& !is_space_byte(ds[i][0])
    &&& spec_float(joined(ds, i)) == Ok::<(Seq<u8>, u32), crate::error::RvmError>(
        (after_text(ds, i), xs[i]),
    )
}

/// Every text `ds[i]` is the number `xs[i]` as nom reads it where it stands.
pub open spec fn numbers_in_place(ds: Seq<Seq<u8>>, xs: Seq<u32>) -> bool {
    &&& ds.len() == xs.len()
    &&& forall|i: int| 0 <= i < ds.len() ==> #[trigger] number_at(ds, xs, i)
}

/// Skipping blanks at the `i`-th number's place leaves the text from that number on.
proof fn lemma_ws_text_from(ds: Seq<Seq<u8>>, xs: Seq<u32>, i: int)
    requires
        numbers_in_place(ds, xs),
        0 <= i < ds.len(),
    ensures
        ws(text_from(ds, i)) == joined(ds, i),
{
    let j = joined(ds, i);
    assert(number_at(ds, xs, i));
    assert(j[0] == ds[i][0]);
    if i == 0 {
        assert(blank_end(j, 0) == 0);
        assert(j.skip(0) =~= j);
    } else {
        let s = text_from(ds, i);
        assert(s =~= seq![32u8] + j);
        assert(s[1] == j[0]);
        assert(blank_end(s, 1) == 1);
        assert(blank_end(s, 0) == 1);
        assert(s.skip(1) =~= j);
    }
}

/// Reading `n` numbers at the `i`-th number's place reads `xs[i..i + n]` and leaves the
/// text from the `(i + n)`-th number on.
proof fn lemma_floats_in_place(ds: Seq<Seq<u8>>, xs: Seq<u32>, i: int, n: nat)
    requires
        numbers_in_place(ds, xs),
        0 <= i,
        i + n <= ds.len(),
    ensures
        spec_floats(text_from(ds, i), n) == Ok::<(Seq<u8>, Seq<u32>), crate::error::RvmError>(
            (text_from(ds, i + n), xs.subrange(i, i + n)),
        ),
    decreases n,
{
    if n == 0 {
        assert(xs.subrange(i, i) =~= Seq::<u32>::empty());
    } else {
        let m = (n - 1) as nat;
        let k = i + m;
        lemma_floats_in_place(ds, xs, i, m);
        let before = text_from(ds, k);
        let v = xs.subrange(i, k);
        assert(spec_floats(text_from(ds, i), m) == Ok::<(Seq<u8>, Seq<u32>), crate::error::RvmError>((before, v)));
        assert(spec_ws_float(before) == Ok::<(Seq<u8>, u32), crate::error::RvmError>(
            (text_from(ds, k + 1), xs[k]),
        )) by {
            lemma_ws_text_from(ds, xs, k);
            assert(number_at(ds, xs, k));
            assert(after_text(ds, k) == text_from(ds, k + 1));
        }
        assert(v.push(xs[k]) =~= xs.subrange(i, i + n));
    }
}

/// Byte `j` (0 to 3, most significant first) of the big-endian word `x`.
pub open spec fn word_byte(x: u32, j: int) -> u8 {
    if j == 0 {
        (x >> 24u32) as u8
    } else if j == 1 {
        (x >> 16u32) as u8
    } else if j == 2 {
        (x >> 8u32) as u8
    } else {
        x as u8
    }
}

/// The words `ns` as big-endian bytes, one word after the other.
pub open spec fn be_bytes(ns: Seq<u32>) -> Seq<u8> {
    Seq::new(4 * ns.len(), |j: int| word_byte(ns[j / 4], j % 4))
}

proof fn lemma_div4(q: int, a: int)
    requires
        0 <= q,
        0 <= a,
    ensures
        (4 * q + a) / 4 == q + a / 4,
        (4 * q + a) % 4 == a % 4,
{
    vstd::arithmetic::div_mod::lemma_fundamental_div_mod(a, 4);
    vstd::arithmetic::div_mod::lemma_fundamental_div_mod_converse(4 * q + a, 4, q + a / 4, a % 4);
}

proof fn lemma_word_bytes(x: u32)
    ensures
        be_u32_of(seq![word_byte(x, 0), word_byte(x, 1), word_byte(x, 2), word_byte(x, 3)]) == x,
{
    let a = (x >> 24u32) as u8;
    let b = (x >> 16u32) as u8;
    let c = (x >> 8u32) as u8;
    let d = x as u8;
    assert(((a * 0x100_0000 + b * 0x1_0000 + c * 0x100 + d) as u32) == x) by (bit_vector)
        requires
            a == (x >> 24u32) as u8,
            b == (x >> 16u32) as u8,
            c == (x >> 8u32) as u8,
            d == x as u8,
    ;
}

/// Reading `n` big-endian numbers from the bytes of `ns` gives back `ns[..n]` and
/// leaves the bytes of the rest.
proof fn lemma_be_floats_of_bytes(ns: Seq<u32>, n: nat)
    requires
        n <= ns.len(),
    ensures
        spec_be_floats(be_bytes(ns), n) == Ok::<(Seq<u8>, Seq<u32>), crate::error::RvmError>(
            (be_bytes(ns.skip(n as int)), ns.take(n as int)),
        ),
{
    let b = be_bytes(ns);
    let rest = b.skip(4 * n as int);
    assert forall|j: int| 0 <= j < rest.len() implies rest[j] == be_bytes(ns.skip(n as int))[j] by {
        lemma_div4(n as int, j);
    }
    assert(rest =~= be_bytes(ns.skip(n as int)));
    let v = Seq::new(n, |i: int| be_u32_of(b.subrange(4 * i, 4 * i + 4)));
    assert forall|i: int| 0 <= i < n implies v[i] == ns[i] by {
        let w = b.subrange(4 * i, 4 * i + 4);
        assert forall|j: int| 0 <= j < 4 implies w[j] == word_byte(ns[i], j) by {
            lemma_div4(i, j);
            assert(j / 4 == 0 && j % 4 == j);
        }
        assert(w =~= seq![word_byte(ns[i], 0), word_byte(ns[i], 1), word_byte(ns[i], 2), word_byte(ns[i], 3)]);
        lemma_word_bytes(ns[i]);
    }
    assert(v =~= ns.take(n as int));
}

/// Zero bytes three times and then a byte `b` other than 0, read as zero bytes and one
/// byte.
proof fn lemma_zbyte_word(s: Seq<u8>)
    requires
        s.len() >= 4,
        s[0] == 0,
        s[1] == 0,
        s[2] == 0,
        s[3] != 0,
    ensures
        spec_zbyte(s) == Ok::<(Seq<u8>, u8), crate::error::RvmError>((s.skip(4), s[3])),
{
    assert(zero_end(s, 3) == 3);
    assert(zero_end(s, 2) == 3);
    assert(zero_end(s, 1) == 3);
    assert(zero_end(s, 0) == 3);
    assert(skip_zeros(s).drop_first() =~= s.skip(4));
}

/// The head of a primitive block as the writer lays it out: the offset word 9 and the
/// version words 1 and 2, then the type word `k`.
pub open spec fn prim_head_bytes(k: u8) -> Seq<u8> {
    seq![0u8, 0, 0, 9, 0, 0, 0, 1, 0, 0, 0, 2, 0, 0, 0, k]
}

/// Past that head, the type byte is `k` and the words follow.
proof fn lemma_prim_head(k: u8, rest: Seq<u8>)
    requires
        k != 0,
    ensures
        spec_block_head(prim_head_bytes(k) + rest) matches Ok((r, _)) && spec_zbyte(r)
            == Ok::<(Seq<u8>, u8), crate::error::RvmError>((rest, k)),
{
    let s = prim_head_bytes(k) + rest;
    assert(zero_end(s, 3) == 3);
    assert(zero_end(s, 2) == 3);
    assert(zero_end(s, 1) == 3);
    assert(zero_end(s, 0) == 3);
    let s1 = skip_zeros(s);
    assert(s1 =~= s.skip(3));
    assert(nonzero_end(s1, 1) == 1);
    assert(nonzero_end(s1, 0) == 1);
    let s2 = spec_take_nonzero(s1).0;
    assert(s2 =~= s.skip(4));
    lemma_zbyte_word(s2);
    assert(s2.skip(4) =~= s.skip(8));
    lemma_zbyte_word(s.skip(8));
    assert(s.skip(8).skip(4) =~= s.skip(12));
    assert(spec_cnte_version(s2) == Ok::<(Seq<u8>, u8), crate::error::RvmError>((s.skip(12), 1u8)));
    lemma_zbyte_word(s.skip(12));
    assert(s.skip(12).skip(4) =~= rest);
}

/// A primitive written in both formats is read as one and the same primitive. The text
/// is the version pair, the type number and the primitive's numbers, each a decimal
/// text, joined by single blanks; the bytes are the block head, the type byte `k`, and
/// the same numbers (all but the version pair and the type) as big-endian words. Where
/// nom reads each decimal text in place as its number and the type number is the whole
/// number `k` (1 to 10), both readers read all of their input and give the same
/// primitive.
pub proof fn law_prim_formats_read_alike(ds: Seq<Seq<u8>>, xs: Seq<u32>, k: u8)
    requires
        1 <= k <= 10,
        numbers_in_place(ds, xs),
        xs.len() == 21 + arity(bin_prim_kind(k).unwrap()),
        xs[2] == byte_float_bits(k),
    ensures
        spec_parse_prim(joined(ds, 0)) matches Ok((r, p)) && r.len() == 0,
        spec_prim_binary(prim_head_bytes(k) + be_bytes(xs.skip(3))) matches Ok((r, q)) && r.len() == 0,
        spec_parse_prim(joined(ds, 0)) matches Ok((_, p)) && spec_prim_binary(
            prim_head_bytes(k) + be_bytes(xs.skip(3)),
        ) matches Ok((_, q)) && p == q,
{
    reveal(spec_parse_prim);
    reveal(spec_prim_binary);
    law_prim_kinds_agree(k);
    let sk = bin_prim_kind(k).unwrap();
    let a = arity(sk);
    let len = xs.len() as int;
    // The text.
    lemma_floats_in_place(ds, xs, 0, 2);
    lemma_ws_text_from(ds, xs, 2);
    assert(number_at(ds, xs, 2));
    assert(after_text(ds, 2) == text_from(ds, 3));
    assert(spec_ws_float(text_from(ds, 2)) == Ok::<(Seq<u8>, u32), crate::error::RvmError>(
        (text_from(ds, 3), xs[2]),
    ));
    lemma_floats_in_place(ds, xs, 3, 12);
    lemma_floats_in_place(ds, xs, 15, 6);
    lemma_floats_in_place(ds, xs, 21, a);
    assert(text_from(ds, len).len() == 0);
    // The bytes.
    let ns = xs.skip(3);
    lemma_prim_head(k, be_bytes(ns));
    lemma_be_floats_of_bytes(ns, 12);
    lemma_be_floats_of_bytes(ns.skip(12), 6);
    lemma_be_floats_of_bytes(ns.skip(12).skip(6), a);
    assert(ns.take(12) =~= xs.subrange(3, 15));
    assert(ns.skip(12).take(6) =~= xs.subrange(15, 21));
    assert(ns.skip(12).skip(6).take(a as int) =~= xs.subrange(21, len));
    assert(be_bytes(ns.skip(12).skip(6).skip(a as int)).len() == 0);
}

} // verus!
