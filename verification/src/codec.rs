//! The cache-file codec: a text document holding the last observed tip
//! and every cached block, written and parsed by verified code.
//!
//! Numbers are fixed-width lowercase hexadecimal (8 digits for heights,
//! 16 for lengths and values); strings are length-prefixed; an absent tip
//! is the tag `n`, a present one the tag `t` followed by the tip. The
//! parser accepts exactly the documents the encoder emits: decoding an
//! encoded cache yields the cache back.

use vstd::prelude::*;

use crate::block::BlockModel;
use crate::block::CachedBlock;
use crate::block::CoinbaseOutput;
use crate::block::OutputModel;
use crate::cache::heights_unique;
use crate::cache::BlockCache;
use crate::cache::CacheModel;
use crate::error::StatsError;

verus! {

pub open spec fn pow16(w: int) -> int
    decreases w,
{
    if w <= 0 {
        1
    } else {
        16 * pow16(w - 1)
    }
}

pub open spec fn hex_digit(d: int) -> char {
    if d < 10 {
        ((48 + d) as u8) as char
    } else {
        ((87 + d) as u8) as char
    }
}

pub open spec fn is_hex_digit(c: char) -> bool {
    (48 <= c as int <= 57) || (97 <= c as int <= 102)
}

pub open spec fn hex_val(c: char) -> int {
    if c as int <= 57 {
        c as int - 48
    } else {
        c as int - 87
    }
}

/// `n` in `w` fixed-width hexadecimal digits, most significant first.
pub open spec fn enc_hex(n: int, w: int) -> Seq<char>
    decreases w,
{
    if w <= 0 {
        Seq::empty()
    } else {
        enc_hex(n / 16, w - 1).push(hex_digit(n % 16))
    }
}

/// The value of the `w` digits of `s` at `p`, or `None` if one is not a
/// hexadecimal digit or the window does not fit.
pub open spec fn parse_hex(s: Seq<char>, p: int, w: int) -> Option<int>
    decreases w,
{
    if w <= 0 {
        Some(0)
    } else if p < 0 || p + w > s.len() {
        None
    } else {
        let c = s[p + w - 1];
        if is_hex_digit(c) {
            match parse_hex(s, p, w - 1) {
                Some(hi) => Some(16 * hi + hex_val(c)),
                None => None,
            }
        } else {
            None
        }
    }
}

pub proof fn lemma_enc_hex_len(n: int, w: int)
    requires
        0 <= w,
    ensures
        enc_hex(n, w).len() == w,
    decreases w,
{
    if w > 0 {
        lemma_enc_hex_len(n / 16, w - 1);
    }
}

pub proof fn lemma_hex_digit_inverse(d: int)
    requires
        0 <= d < 16,
    ensures
        is_hex_digit(hex_digit(d)),
        hex_val(hex_digit(d)) == d,
{
}

pub proof fn lemma_parse_hex_bound(s: Seq<char>, p: int, w: int)
    requires
        0 <= w,
        parse_hex(s, p, w) is Some,
    ensures
        0 <= parse_hex(s, p, w)->Some_0 < pow16(w),
    decreases w,
{
    if w > 0 {
        lemma_parse_hex_bound(s, p, w - 1);
    }
}

/// Parsing the digits the encoder wrote yields the value back.
pub proof fn lemma_parse_enc_hex(s: Seq<char>, p: int, n: int, w: int)
    requires
        0 <= w,
        0 <= n < pow16(w),
        0 <= p,
        p + w <= s.len(),
        s.subrange(p, p + w) == enc_hex(n, w),
    ensures
        parse_hex(s, p, w) == Some(n),
    decreases w,
{
    if w > 0 {
        lemma_enc_hex_len(n, w);
        lemma_enc_hex_len(n / 16, w - 1);
        assert(s[p + w - 1] == enc_hex(n, w)[w - 1]);
        assert(enc_hex(n, w)[w - 1] == hex_digit(n % 16));
        lemma_hex_digit_inverse(n % 16);
        assert(n / 16 < pow16(w - 1)) by (nonlinear_arith)
            requires
                0 <= n,
                n < 16 * pow16(w - 1),
        ;
        assert(s.subrange(p, p + w - 1) =~= enc_hex(n / 16, w - 1)) by {
            assert forall|k: int| 0 <= k < w - 1 implies (#[trigger] s.subrange(p, p + w - 1)[k])
                == enc_hex(n / 16, w - 1)[k] by {
                assert(s.subrange(p, p + w - 1)[k] == s[p + k]);
                assert(s[p + k] == s.subrange(p, p + w)[k]);
                assert(enc_hex(n, w)[k] == enc_hex(n / 16, w - 1)[k]);
            }
        }
        lemma_parse_enc_hex(s, p, n / 16, w - 1);
    }
}

/// A length-prefixed string: 16 hexadecimal digits of length, then the
/// characters.
pub open spec fn enc_str(x: Seq<char>) -> Seq<char> {
    enc_hex(x.len() as int, 16) + x
}

pub open spec fn parse_string(s: Seq<char>, p: int) -> Option<(Seq<char>, int)> {
    match parse_hex(s, p, 16) {
        Some(l) => if p + 16 + l <= s.len() {
            Some((s.subrange(p + 16, p + 16 + l), p + 16 + l))
        } else {
            None
        },
        None => None,
    }
}

/// Splitting a window that holds a concatenation.
pub proof fn lemma_subrange_split(s: Seq<char>, p: int, a: Seq<char>, b: Seq<char>)
    requires
        0 <= p,
        p + a.len() + b.len() <= s.len(),
        s.subrange(p, p + a.len() + b.len()) == a + b,
    ensures
        s.subrange(p, p + a.len()) == a,
        s.subrange(p + a.len(), p + a.len() + b.len()) == b,
{
    let whole = s.subrange(p, p + a.len() + b.len());
    assert(s.subrange(p, p + a.len()) =~= a) by {
        assert forall|k: int| 0 <= k < a.len() implies s.subrange(p, p + a.len())[k] == a[k] by {
            assert(whole[k] == (a + b)[k]);
        }
    }
    assert(s.subrange(p + a.len(), p + a.len() + b.len()) =~= b) by {
        assert forall|k: int| 0 <= k < b.len() implies s.subrange(
            p + a.len(),
            p + a.len() + b.len(),
        )[k] == b[k] by {
            assert(whole[a.len() + k] == (a + b)[a.len() + k]);
        }
    }
}

pub proof fn lemma_parse_enc_str(s: Seq<char>, p: int, x: Seq<char>)
    requires
        x.len() < pow16(16),
        0 <= p,
        p + 16 + x.len() <= s.len(),
        s.subrange(p, p + 16 + x.len()) == enc_str(x),
    ensures
        parse_string(s, p) == Some((x, p + 16 + x.len())),
{
    lemma_enc_hex_len(x.len() as int, 16);
    lemma_subrange_split(s, p, enc_hex(x.len() as int, 16), x);
    lemma_parse_enc_hex(s, p, x.len() as int, 16);
}

/// The address list of one output, length-prefixed strings in order.
pub open spec fn enc_addrs(xs: Seq<Seq<char>>) -> Seq<char>
    decreases xs.len(),
{
    if xs.len() == 0 {
        Seq::empty()
    } else {
        enc_str(xs[0]) + enc_addrs(xs.drop_first())
    }
}

pub open spec fn parse_addrs(s: Seq<char>, p: int, cnt: int) -> Option<(Seq<Seq<char>>, int)>
    decreases cnt,
{
    if cnt <= 0 {
        Some((Seq::empty(), p))
    } else {
        match parse_string(s, p) {
            Some((a, p2)) => match parse_addrs(s, p2, cnt - 1) {
                Some((rest, p3)) => Some((seq![a] + rest, p3)),
                None => None,
            },
            None => None,
        }
    }
}

pub open spec fn addrs_encodable(xs: Seq<Seq<char>>) -> bool {
    &&& xs.len() < pow16(16)
    &&& forall|j: int| 0 <= j < xs.len() ==> (#[trigger] xs[j]).len() < pow16(16)
}

pub proof fn lemma_parse_enc_addrs(s: Seq<char>, p: int, xs: Seq<Seq<char>>)
    requires
        addrs_encodable(xs),
        0 <= p,
        p + enc_addrs(xs).len() <= s.len(),
        s.subrange(p, p + enc_addrs(xs).len()) == enc_addrs(xs),
    ensures
        parse_addrs(s, p, xs.len() as int) == Some((xs, p + enc_addrs(xs).len())),
    decreases xs.len(),
{
    if xs.len() == 0 {
        assert(s.subrange(p, p) =~= Seq::<char>::empty());
        assert(Some((Seq::<Seq<char>>::empty(), p)) == Some((xs, p + enc_addrs(xs).len()))) by {
            assert(xs =~= Seq::<Seq<char>>::empty());
        }
    } else {
        let head = enc_str(xs[0]);
        let rest = enc_addrs(xs.drop_first());
        lemma_enc_hex_len(xs[0].len() as int, 16);
        lemma_subrange_split(s, p, head, rest);
        lemma_parse_enc_str(s, p, xs[0]);
        let p2 = p + head.len();
        assert(forall|j: int|
            0 <= j < xs.drop_first().len() ==> (#[trigger] xs.drop_first()[j]) == xs[j + 1]);
        lemma_parse_enc_addrs(s, p2, xs.drop_first());
        assert(seq![xs[0]] + xs.drop_first() =~= xs);
    }
}

/// The bit image of a value: two's complement in 64 bits.
pub open spec fn bits_of(v: int) -> int {
    if v >= 0 {
        v
    } else {
        v + 0x1_0000_0000_0000_0000
    }
}

pub open spec fn val_of_bits(b: int) -> int {
    if b < 0x8000_0000_0000_0000 {
        b
    } else {
        b - 0x1_0000_0000_0000_0000
    }
}

/// One output: value bits, address count, addresses.
pub open spec fn enc_output(o: OutputModel) -> Seq<char> {
    enc_hex(bits_of(o.value as int), 16) + enc_hex(o.addresses.len() as int, 16) + enc_addrs(
        o.addresses,
    )
}

pub open spec fn parse_output(s: Seq<char>, p: int) -> Option<(OutputModel, int)> {
    match parse_hex(s, p, 16) {
        Some(bits) => match parse_hex(s, p + 16, 16) {
            Some(cnt) => match parse_addrs(s, p + 32, cnt) {
                Some((addrs, p2)) => Some(
                    (OutputModel { value: val_of_bits(bits) as i64, addresses: addrs }, p2),
                ),
                None => None,
            },
            None => None,
        },
        None => None,
    }
}

pub open spec fn output_encodable(o: OutputModel) -> bool {
    addrs_encodable(o.addresses)
}

pub proof fn lemma_parse_enc_output(s: Seq<char>, p: int, o: OutputModel)
    requires
        output_encodable(o),
        0 <= p,
        p + enc_output(o).len() <= s.len(),
        s.subrange(p, p + enc_output(o).len()) == enc_output(o),
    ensures
        parse_output(s, p) == Some((o, p + enc_output(o).len())),
{
    let bits = enc_hex(bits_of(o.value as int), 16);
    let cnt = enc_hex(o.addresses.len() as int, 16);
    let rest = enc_addrs(o.addresses);
    lemma_enc_hex_len(bits_of(o.value as int), 16);
    lemma_enc_hex_len(o.addresses.len() as int, 16);
    assert(enc_output(o) =~= bits + (cnt + rest));
    lemma_subrange_split(s, p, bits, cnt + rest);
    lemma_subrange_split(s, p + 16, cnt, rest);
    assert(pow16(16) == 0x1_0000_0000_0000_0000) by {
        reveal_with_fuel(pow16, 17);
    }
    lemma_parse_enc_hex(s, p, bits_of(o.value as int), 16);
    lemma_parse_enc_hex(s, p + 16, o.addresses.len() as int, 16);
    lemma_parse_enc_addrs(s, p + 32, o.addresses);
    assert(val_of_bits(bits_of(o.value as int)) as i64 == o.value);
}

/// The output list of one block.
pub open spec fn enc_outputs(xs: Seq<OutputModel>) -> Seq<char>
    decreases xs.len(),
{
    if xs.len() == 0 {
        Seq::empty()
    } else {
        enc_output(xs[0]) + enc_outputs(xs.drop_first())
    }
}

pub open spec fn parse_outputs(s: Seq<char>, p: int, cnt: int) -> Option<(Seq<OutputModel>, int)>
    decreases cnt,
{
    if cnt <= 0 {
        Some((Seq::empty(), p))
    } else {
        match parse_output(s, p) {
            Some((o, p2)) => match parse_outputs(s, p2, cnt - 1) {
                Some((rest, p3)) => Some((seq![o] + rest, p3)),
                None => None,
            },
            None => None,
        }
    }
}

pub open spec fn outputs_encodable(xs: Seq<OutputModel>) -> bool {
    &&& xs.len() < pow16(16)
    &&& forall|j: int| 0 <= j < xs.len() ==> output_encodable(#[trigger] xs[j])
}

pub proof fn lemma_parse_enc_outputs(s: Seq<char>, p: int, xs: Seq<OutputModel>)
    requires
        outputs_encodable(xs),
        0 <= p,
        p + enc_outputs(xs).len() <= s.len(),
        s.subrange(p, p + enc_outputs(xs).len()) == enc_outputs(xs),
    ensures
        parse_outputs(s, p, xs.len() as int) == Some((xs, p + enc_outputs(xs).len())),
    decreases xs.len(),
{
    if xs.len() == 0 {
        assert(s.subrange(p, p) =~= Seq::<char>::empty());
        assert(Some((Seq::<OutputModel>::empty(), p)) == Some((xs, p + enc_outputs(xs).len())))
            by {
            assert(xs =~= Seq::<OutputModel>::empty());
        }
    } else {
        let head = enc_output(xs[0]);
        let rest = enc_outputs(xs.drop_first());
        lemma_subrange_split(s, p, head, rest);
        lemma_parse_enc_output(s, p, xs[0]);
        assert(forall|j: int|
            0 <= j < xs.drop_first().len() ==> (#[trigger] xs.drop_first()[j]) == xs[j + 1]);
        lemma_parse_enc_outputs(s, p + head.len(), xs.drop_first());
        assert(seq![xs[0]] + xs.drop_first() =~= xs);
    }
}

/// One block: height, hash, output count, outputs.
pub open spec fn enc_block(b: BlockModel) -> Seq<char> {
    enc_hex(b.height as int, 8) + enc_str(b.hash) + enc_hex(b.outputs.len() as int, 16)
        + enc_outputs(b.outputs)
}

pub open spec fn parse_block(s: Seq<char>, p: int) -> Option<(BlockModel, int)> {
    match parse_hex(s, p, 8) {
        Some(h) => match parse_string(s, p + 8) {
            Some((hash, p2)) => match parse_hex(s, p2, 16) {
                Some(cnt) => match parse_outputs(s, p2 + 16, cnt) {
                    Some((outs, p3)) => Some(
                        (BlockModel { height: h as u32, hash, outputs: outs }, p3),
                    ),
                    None => None,
                },
                None => None,
            },
            None => None,
        },
        None => None,
    }
}

pub open spec fn block_encodable(b: BlockModel) -> bool {
    &&& b.hash.len() < pow16(16)
    &&& outputs_encodable(b.outputs)
}

pub proof fn lemma_parse_enc_block(s: Seq<char>, p: int, b: BlockModel)
    requires
        block_encodable(b),
        0 <= p,
        p + enc_block(b).len() <= s.len(),
        s.subrange(p, p + enc_block(b).len()) == enc_block(b),
    ensures
        parse_block(s, p) == Some((b, p + enc_block(b).len())),
{
    let e_h = enc_hex(b.height as int, 8);
    let e_hash = enc_str(b.hash);
    let e_cnt = enc_hex(b.outputs.len() as int, 16);
    let e_outs = enc_outputs(b.outputs);
    lemma_enc_hex_len(b.height as int, 8);
    lemma_enc_hex_len(b.hash.len() as int, 16);
    lemma_enc_hex_len(b.outputs.len() as int, 16);
    assert(enc_block(b) =~= e_h + (e_hash + (e_cnt + e_outs)));
    lemma_subrange_split(s, p, e_h, e_hash + (e_cnt + e_outs));
    lemma_subrange_split(s, p + 8, e_hash, e_cnt + e_outs);
    let p2 = p + 8 + e_hash.len();
    lemma_subrange_split(s, p2, e_cnt, e_outs);
    assert(pow16(8) == 0x1_0000_0000) by {
        reveal_with_fuel(pow16, 9);
    }
    assert(pow16(16) == 0x1_0000_0000_0000_0000) by {
        reveal_with_fuel(pow16, 17);
    }
    lemma_parse_enc_hex(s, p, b.height as int, 8);
    lemma_parse_enc_str(s, p + 8, b.hash);
    lemma_parse_enc_hex(s, p2, b.outputs.len() as int, 16);
    lemma_parse_enc_outputs(s, p2 + 16, b.outputs);
    assert(parse_block(s, p) == Some((b, p + enc_block(b).len()))) by {
        assert((b.height as int) as u32 == b.height);
    }
}

/// The block list of the cache.
pub open spec fn enc_blocks(xs: Seq<BlockModel>) -> Seq<char>
    decreases xs.len(),
{
    if xs.len() == 0 {
        Seq::empty()
    } else {
        enc_block(xs[0]) + enc_blocks(xs.drop_first())
    }
}

pub open spec fn parse_blocks(s: Seq<char>, p: int, cnt: int) -> Option<(Seq<BlockModel>, int)>
    decreases cnt,
{
    if cnt <= 0 {
        Some((Seq::empty(), p))
    } else {
        match parse_block(s, p) {
            Some((b, p2)) => match parse_blocks(s, p2, cnt - 1) {
                Some((rest, p3)) => Some((seq![b] + rest, p3)),
                None => None,
            },
            None => None,
        }
    }
}

pub open spec fn blocks_encodable(xs: Seq<BlockModel>) -> bool {
    &&& xs.len() < pow16(16)
    &&& forall|j: int| 0 <= j < xs.len() ==> block_encodable(#[trigger] xs[j])
}

pub proof fn lemma_parse_enc_blocks(s: Seq<char>, p: int, xs: Seq<BlockModel>)
    requires
        blocks_encodable(xs),
        0 <= p,
        p + enc_blocks(xs).len() <= s.len(),
        s.subrange(p, p + enc_blocks(xs).len()) == enc_blocks(xs),
    ensures
        parse_blocks(s, p, xs.len() as int) == Some((xs, p + enc_blocks(xs).len())),
    decreases xs.len(),
{
    if xs.len() == 0 {
        assert(s.subrange(p, p) =~= Seq::<char>::empty());
        assert(Some((Seq::<BlockModel>::empty(), p)) == Some((xs, p + enc_blocks(xs).len()))) by {
            assert(xs =~= Seq::<BlockModel>::empty());
        }
    } else {
        let head = enc_block(xs[0]);
        let rest = enc_blocks(xs.drop_first());
        lemma_subrange_split(s, p, head, rest);
        lemma_parse_enc_block(s, p, xs[0]);
        assert(forall|j: int|
            0 <= j < xs.drop_first().len() ==> (#[trigger] xs.drop_first()[j]) == xs[j + 1]);
        lemma_parse_enc_blocks(s, p + head.len(), xs.drop_first());
        assert(seq![xs[0]] + xs.drop_first() =~= xs);
    }
}

/// The whole document: the tip tag, the block count, the blocks.
pub open spec fn enc_cache(c: CacheModel) -> Seq<char> {
    (match c.last_tip {
        Option::None => seq!['n'],
        Option::Some(t) => seq!['t'] + enc_hex(t as int, 8),
    }) + enc_hex(c.blocks.len() as int, 16) + enc_blocks(c.blocks)
}

pub open spec fn parse_tip(s: Seq<char>) -> Option<(Option<u32>, int)> {
    if s.len() < 1 {
        None
    } else if s[0] == 'n' {
        Some((Option::None, 1))
    } else if s[0] == 't' {
        match parse_hex(s, 1, 8) {
            Some(v) => Some((Some(v as u32), 9)),
            None => None,
        }
    } else {
        None
    }
}

/// The cache a document holds, if it is well formed: the parse must
/// consume the document exactly and the heights must be pairwise distinct.
pub open spec fn parse_cache(s: Seq<char>) -> Option<CacheModel> {
    match parse_tip(s) {
        Some((tip, p1)) => match parse_hex(s, p1, 16) {
            Some(cnt) => match parse_blocks(s, p1 + 16, cnt) {
                Some((blocks, pend)) => if pend == s.len() && heights_unique(blocks) {
                    Some(CacheModel { last_tip: tip, blocks })
                } else {
                    None
                },
                None => None,
            },
            None => None,
        },
        None => None,
    }
}

pub open spec fn cache_encodable(c: CacheModel) -> bool {
    blocks_encodable(c.blocks)
}

/// The cache round trip: parsing an encoded cache yields the cache back,
/// for any cache value with pairwise-distinct heights, including the
/// empty cache.
pub proof fn lemma_cache_round_trip(c: CacheModel)
    requires
        cache_encodable(c),
        heights_unique(c.blocks),
    ensures
        parse_cache(enc_cache(c)) == Some(c),
{
    let s = enc_cache(c);
    let e_tip = (match c.last_tip {
        Option::None => seq!['n'],
        Option::Some(t) => seq!['t'] + enc_hex(t as int, 8),
    });
    let e_cnt = enc_hex(c.blocks.len() as int, 16);
    let e_blocks = enc_blocks(c.blocks);
    lemma_enc_hex_len(c.blocks.len() as int, 16);
    assert(s =~= e_tip + (e_cnt + e_blocks));
    assert(s.subrange(0, s.len() as int) =~= s);
    lemma_subrange_split(s, 0, e_tip, e_cnt + e_blocks);
    let p1 = e_tip.len() as int;
    lemma_subrange_split(s, p1, e_cnt, e_blocks);
    assert(pow16(8) == 0x1_0000_0000) by {
        reveal_with_fuel(pow16, 9);
    }
    assert(pow16(16) == 0x1_0000_0000_0000_0000) by {
        reveal_with_fuel(pow16, 17);
    }
    match c.last_tip {
        Option::None => {
            assert(s[0] == 'n');
            assert(parse_tip(s) == Some((Option::<u32>::None, 1int)));
        },
        Option::Some(t) => {
            lemma_enc_hex_len(t as int, 8);
            assert(s[0] == (e_tip + (e_cnt + e_blocks))[0]);
            assert(e_tip[0] == 't');
            assert(s[0] == 't');
            assert(s[0] != 'n');
            assert(s.subrange(1, 9) =~= enc_hex(t as int, 8)) by {
                assert forall|k: int| 0 <= k < 8 implies s.subrange(1, 9)[k] == enc_hex(
                    t as int,
                    8,
                )[k] by {
                    assert(s[1 + k] == (e_tip + (e_cnt + e_blocks))[1 + k]);
                    assert(e_tip[1 + k] == enc_hex(t as int, 8)[k]);
                }
            }
            lemma_parse_enc_hex(s, 1, t as int, 8);
            assert(parse_tip(s) == Some((Some((t as int) as u32), 9int)));
            assert((t as int) as u32 == t);
        },
    }
    lemma_parse_enc_hex(s, p1, c.blocks.len() as int, 16);
    lemma_parse_enc_blocks(s, p1 + 16, c.blocks);
    assert(parse_cache(s) == Some(CacheModel { last_tip: c.last_tip, blocks: c.blocks }));
    assert(CacheModel { last_tip: c.last_tip, blocks: c.blocks } =~= c);
}

pub proof fn lemma_pow16_monotone(a: int, b: int)
    requires
        a <= b,
    ensures
        pow16(a) <= pow16(b),
    decreases b - a,
{
    if a < b {
        lemma_pow16_monotone(a, b - 1);
        lemma_pow16_positive(b - 1);
    }
}

pub proof fn lemma_pow16_positive(w: int)
    ensures
        pow16(w) >= 1,
    decreases w,
{
    if w > 0 {
        lemma_pow16_positive(w - 1);
    }
}

/// One invalid digit anywhere in the window makes the whole window
/// unparsable.
pub proof fn lemma_parse_hex_invalid(s: Seq<char>, p: int, w: int, j: int)
    requires
        0 <= j < w,
        0 <= p,
        p + w <= s.len(),
        !is_hex_digit(s[p + j]),
    ensures
        parse_hex(s, p, w) is None,
    decreases w,
{
    if j < w - 1 {
        lemma_parse_hex_invalid(s, p, w - 1, j);
    }
}

/// Appends `n` as `w` hexadecimal digits.
fn push_hex(out: &mut Vec<char>, n: u64, w: usize)
    ensures
        final(out)@ == old(out)@ + enc_hex(n as int, w as int),
    decreases w,
{
    if w == 0 {
        proof {
            assert(out@ =~= old(out)@ + enc_hex(n as int, 0));
        }
        return ;
    }
    push_hex(out, n / 16, w - 1);
    let d: u64 = n % 16;
    let c: u8 = if d < 10 {
        48 + (d as u8)
    } else {
        87 + (d as u8)
    };
    out.push(c as char);
    proof {
        assert(c as char == hex_digit(n as int % 16));
        assert(out@ =~= old(out)@ + enc_hex(n as int, w as int));
    }
}

/// The code point of a character.
fn char_code(c: char) -> (r: u32)
    ensures
        r as int == c as int,
{
    c as u32
}

/// Reads `w` hexadecimal digits at `p`.
fn parse_hex_exec(s: &Vec<char>, p: usize, w: usize) -> (r: Option<u64>)
    requires
        w <= 16,
    ensures
        (r is Some) == (parse_hex(s@, p as int, w as int) is Some),
        r is Some ==> parse_hex(s@, p as int, w as int) == Some(r->Some_0 as int),
{
    if w == 0 {
        return Some(0);
    }
    if s.len() < w || p > s.len() - w {
        return None;
    }
    let mut acc: u64 = 0;
    let mut k: usize = 0;
    while k < w
        invariant
            w <= 16,
            k <= w,
            p + w <= s@.len(),
            s@.len() <= usize::MAX,
            parse_hex(s@, p as int, k as int) == Some(acc as int),
        decreases w - k,
    {
        let c: char = s[p + k];
        let u: u32 = char_code(c);
        proof {
            assert(c == s@[p + k]);
            assert(u as int == c as int);
        }
        let d: u64 = if 48 <= u && u <= 57 {
            (u - 48) as u64
        } else if 97 <= u && u <= 102 {
            (u - 87) as u64
        } else {
            proof {
                assert(!is_hex_digit(s@[p + k]));
                lemma_parse_hex_invalid(s@, p as int, w as int, k as int);
            }
            return None;
        };
        proof {
            assert(is_hex_digit(s@[p + k]));
            assert(hex_val(s@[p + k]) == d as int);
            lemma_parse_hex_bound(s@, p as int, k as int);
            lemma_pow16_monotone(k as int, 15);
            assert(pow16(16) == 0x1_0000_0000_0000_0000) by {
                reveal_with_fuel(pow16, 17);
            }
            assert(pow16(15) == 0x1000_0000_0000_0000) by {
                reveal_with_fuel(pow16, 16);
            }
            assert(parse_hex(s@, p as int, k as int + 1) == Some(16 * (acc as int) + d));
        }
        acc = acc * 16 + d;
        k = k + 1;
    }
    Some(acc)
}

/// Relies on `String::from_iter` over an iterator of characters: the
/// collected string holds exactly the iterated characters, in order.
#[verifier::external_body]
fn string_from_chars(v: &Vec<char>) -> (r: String)
    ensures
        r@ == v@,
{
    v.iter().collect()
}

/// Appends a length-prefixed string.
fn push_string(out: &mut Vec<char>, x: &String)
    ensures
        final(out)@ == old(out)@ + enc_str(x@),
        x@.len() < pow16(16),
{
    let n: usize = x.as_str().unicode_len();
    proof {
        assert(pow16(16) == 0x1_0000_0000_0000_0000) by {
            reveal_with_fuel(pow16, 17);
        }
    }
    push_hex(out, n as u64, 16);
    let mut i: usize = 0;
    while i < n
        invariant
            n == x@.len(),
            i <= n,
            out@ == old(out)@ + enc_hex(n as int, 16) + x@.subrange(0, i as int),
        decreases n - i,
    {
        let c: char = x.as_str().get_char(i);
        out.push(c);
        proof {
            assert(x@.subrange(0, i + 1) =~= x@.subrange(0, i as int).push(x@[i as int]));
            assert(out@ =~= old(out)@ + enc_hex(n as int, 16) + x@.subrange(0, i + 1));
        }
        i = i + 1;
    }
    proof {
        assert(x@.subrange(0, n as int) =~= x@);
        assert(out@ =~= old(out)@ + enc_str(x@));
    }
}

/// Reads a length-prefixed string at `p`.
fn parse_string_exec(s: &Vec<char>, p: usize) -> (r: Option<(String, usize)>)
    ensures
        (r is Some) == (parse_string(s@, p as int) is Some),
        r is Some ==> ({
            &&& parse_string(s@, p as int)->Some_0.0 == r->Some_0.0@
            &&& parse_string(s@, p as int)->Some_0.1 == r->Some_0.1 as int
        }),
{
    let l: u64 = match parse_hex_exec(s, p, 16) {
        Some(l) => l,
        None => {
            return None;
        },
    };
    let rem: usize = s.len() - (p + 16);
    if l > rem as u64 {
        return None;
    }
    let l_us: usize = l as usize;
    let mut content: Vec<char> = Vec::new();
    let mut i: usize = 0;
    while i < l_us
        invariant
            p + 16 + l_us <= s@.len(),
            s@.len() <= usize::MAX,
            i <= l_us,
            content@ == s@.subrange(p + 16, p + 16 + i as int),
        decreases l_us - i,
    {
        content.push(s[p + 16 + i]);
        proof {
            assert(content@ =~= s@.subrange(p + 16, p + 16 + i + 1));
        }
        i = i + 1;
    }
    let text = string_from_chars(&content);
    Some((text, p + 16 + l_us))
}

pub proof fn lemma_enc_addrs_snoc(xs: Seq<Seq<char>>, x: Seq<char>)
    ensures
        enc_addrs(xs.push(x)) == enc_addrs(xs) + enc_str(x),
    decreases xs.len(),
{
    reveal_with_fuel(enc_addrs, 3);
    if xs.len() == 0 {
        assert(xs.push(x).drop_first() =~= Seq::<Seq<char>>::empty());
        assert(enc_addrs(xs.push(x)) =~= enc_addrs(xs) + enc_str(x));
    } else {
        assert(xs.push(x).drop_first() =~= xs.drop_first().push(x));
        lemma_enc_addrs_snoc(xs.drop_first(), x);
        assert(enc_addrs(xs.push(x)) =~= enc_addrs(xs) + enc_str(x));
    }
}

pub proof fn lemma_enc_outputs_snoc(xs: Seq<OutputModel>, x: OutputModel)
    ensures
        enc_outputs(xs.push(x)) == enc_outputs(xs) + enc_output(x),
    decreases xs.len(),
{
    reveal_with_fuel(enc_outputs, 3);
    if xs.len() == 0 {
        assert(xs.push(x).drop_first() =~= Seq::<OutputModel>::empty());
        assert(enc_outputs(xs.push(x)) =~= enc_outputs(xs) + enc_output(x));
    } else {
        assert(xs.push(x).drop_first() =~= xs.drop_first().push(x));
        lemma_enc_outputs_snoc(xs.drop_first(), x);
        assert(enc_outputs(xs.push(x)) =~= enc_outputs(xs) + enc_output(x));
    }
}

pub proof fn lemma_enc_blocks_snoc(xs: Seq<BlockModel>, x: BlockModel)
    ensures
        enc_blocks(xs.push(x)) == enc_blocks(xs) + enc_block(x),
    decreases xs.len(),
{
    reveal_with_fuel(enc_blocks, 3);
    if xs.len() == 0 {
        assert(xs.push(x).drop_first() =~= Seq::<BlockModel>::empty());
        assert(enc_blocks(xs.push(x)) =~= enc_blocks(xs) + enc_block(x));
    } else {
        assert(xs.push(x).drop_first() =~= xs.drop_first().push(x));
        lemma_enc_blocks_snoc(xs.drop_first(), x);
        assert(enc_blocks(xs.push(x)) =~= enc_blocks(xs) + enc_block(x));
    }
}

/// Appends the address list of one output.
fn push_addrs(out: &mut Vec<char>, addrs: &Vec<String>)
    ensures
        final(out)@ == old(out)@ + enc_addrs(addrs@.map_values(|a: String| a@)),
        addrs_encodable(addrs@.map_values(|a: String| a@)),
    decreases addrs@.len(),
{
    let ghost mapped = addrs@.map_values(|a: String| a@);
    proof {
        assert(pow16(16) == 0x1_0000_0000_0000_0000) by {
            reveal_with_fuel(pow16, 17);
        }
    }
    let n: usize = addrs.len();
    let mut j: usize = 0;
    while j < n
        invariant
            n == addrs@.len(),
            mapped == addrs@.map_values(|a: String| a@),
            j <= n,
            out@ == old(out)@ + enc_addrs(mapped.subrange(0, j as int)),
            forall|x: int| 0 <= x < j ==> (#[trigger] mapped[x]).len() < pow16(16),
        decreases n - j,
    {
        push_string(out, &addrs[j]);
        proof {
            assert(mapped[j as int] == addrs@[j as int]@);
            assert(mapped.subrange(0, j + 1) =~= mapped.subrange(0, j as int).push(
                mapped[j as int],
            ));
            lemma_enc_addrs_snoc(mapped.subrange(0, j as int), mapped[j as int]);
            assert(out@ =~= old(out)@ + enc_addrs(mapped.subrange(0, j + 1)));
        }
        j = j + 1;
    }
    proof {
        assert(mapped.subrange(0, n as int) =~= mapped);
        assert(pow16(16) == 0x1_0000_0000_0000_0000) by {
            reveal_with_fuel(pow16, 17);
        }
    }
}

/// Appends one output: value bits, address count, addresses.
fn push_output(out: &mut Vec<char>, o: &CoinbaseOutput)
    ensures
        final(out)@ == old(out)@ + enc_output(o@),
        output_encodable(o@),
{
    let bits: u64 = if o.value_zat >= 0 {
        o.value_zat as u64
    } else {
        0xFFFF_FFFF_FFFF_FFFFu64 - ((-(o.value_zat + 1)) as u64)
    };
    proof {
        assert(bits as int == bits_of(o.value_zat as int));
    }
    push_hex(out, bits, 16);
    push_hex(out, o.addresses.len() as u64, 16);
    push_addrs(out, &o.addresses);
    proof {
        assert(out@ =~= old(out)@ + enc_output(o@));
    }
}

/// Appends one block: height, hash, output count, outputs.
fn push_block(out: &mut Vec<char>, b: &CachedBlock)
    ensures
        final(out)@ == old(out)@ + enc_block(b@),
        block_encodable(b@),
{
    push_hex(out, b.height as u64, 8);
    push_string(out, &b.hash);
    push_hex(out, b.outputs.len() as u64, 16);
    let ghost mapped = b.outputs@.map_values(|o: CoinbaseOutput| o@);
    let ghost base = out@;
    let n: usize = b.outputs.len();
    let mut j: usize = 0;
    while j < n
        invariant
            n == b.outputs@.len(),
            mapped == b.outputs@.map_values(|o: CoinbaseOutput| o@),
            j <= n,
            out@ == base + enc_outputs(mapped.subrange(0, j as int)),
            forall|x: int| 0 <= x < j ==> output_encodable(#[trigger] mapped[x]),
        decreases n - j,
    {
        push_output(out, &b.outputs[j]);
        proof {
            assert(mapped[j as int] == b.outputs@[j as int]@);
            assert(mapped.subrange(0, j + 1) =~= mapped.subrange(0, j as int).push(
                mapped[j as int],
            ));
            lemma_enc_outputs_snoc(mapped.subrange(0, j as int), mapped[j as int]);
            assert(out@ =~= base + enc_outputs(mapped.subrange(0, j + 1)));
        }
        j = j + 1;
    }
    proof {
        assert(mapped.subrange(0, n as int) =~= mapped);
        assert(pow16(16) == 0x1_0000_0000_0000_0000) by {
            reveal_with_fuel(pow16, 17);
        }
        assert(out@ =~= old(out)@ + enc_block(b@));
    }
}

impl BlockCache {
    /// Serializes the full cache into its text document. The result is
    /// what `decode` accepts: the document round-trips to this cache.
    pub fn encode(&self) -> (out: Vec<char>)
        ensures
            out@ == enc_cache(self@),
            cache_encodable(self@),
    {
        let mut out: Vec<char> = Vec::new();
        match self.last_tip {
            None => {
                out.push('n');
                proof {
                    assert(out@ =~= seq!['n']);
                }
            },
            Some(t) => {
                out.push('t');
                push_hex(&mut out, t as u64, 8);
                proof {
                    assert(out@ =~= seq!['t'] + enc_hex(t as int, 8));
                }
            },
        }
        push_hex(&mut out, self.blocks.len() as u64, 16);
        let ghost mapped = self.blocks@.map_values(|b: CachedBlock| b@);
        let ghost base = out@;
        let n: usize = self.blocks.len();
        let mut j: usize = 0;
        while j < n
            invariant
                n == self.blocks@.len(),
                mapped == self.blocks@.map_values(|b: CachedBlock| b@),
                j <= n,
                out@ == base + enc_blocks(mapped.subrange(0, j as int)),
                forall|x: int| 0 <= x < j ==> block_encodable(#[trigger] mapped[x]),
            decreases n - j,
        {
            push_block(&mut out, &self.blocks[j]);
            proof {
                assert(mapped[j as int] == self.blocks@[j as int]@);
                assert(mapped.subrange(0, j + 1) =~= mapped.subrange(0, j as int).push(
                    mapped[j as int],
                ));
                lemma_enc_blocks_snoc(mapped.subrange(0, j as int), mapped[j as int]);
                assert(out@ =~= base + enc_blocks(mapped.subrange(0, j + 1)));
            }
            j = j + 1;
        }
        proof {
            assert(mapped.subrange(0, n as int) =~= mapped);
            assert(pow16(16) == 0x1_0000_0000_0000_0000) by {
                reveal_with_fuel(pow16, 17);
            }
            assert(out@ =~= enc_cache(self@));
        }
        out
    }
}

/// Reads `cnt` length-prefixed addresses at `p`.
fn parse_addrs_exec(s: &Vec<char>, p: usize, cnt: u64) -> (r: Option<(Vec<String>, usize)>)
    ensures
        (r is Some) == (parse_addrs(s@, p as int, cnt as int) is Some),
        r is Some ==> ({
            &&& parse_addrs(s@, p as int, cnt as int)->Some_0.0 == r->Some_0.0@.map_values(
                |a: String| a@,
            )
            &&& parse_addrs(s@, p as int, cnt as int)->Some_0.1 == r->Some_0.1 as int
        }),
{
    let mut out: Vec<String> = Vec::new();
    let mut cur: usize = p;
    let mut j: u64 = 0;
    while j < cnt
        invariant
            j <= cnt,
            parse_addrs(s@, p as int, cnt as int) == (match parse_addrs(
                s@,
                cur as int,
                cnt - j,
            ) {
                Some((rest, pe)) => Some((out@.map_values(|a: String| a@) + rest, pe)),
                None => None::<(Seq<Seq<char>>, int)>,
            }),
        decreases cnt - j,
    {
        let ghost mapped = out@.map_values(|a: String| a@);
        match parse_string_exec(s, cur) {
            None => {
                proof {
                    assert(parse_addrs(s@, cur as int, cnt - j) is None);
                }
                return None;
            },
            Some((a, p2)) => {
                proof {
                    let av = parse_string(s@, cur as int)->Some_0.0;
                    assert(av == a@);
                    assert(parse_addrs(s@, cur as int, cnt - j) == (match parse_addrs(
                        s@,
                        p2 as int,
                        cnt - j - 1,
                    ) {
                        Some((rest, pe)) => Some((seq![a@] + rest, pe)),
                        None => None::<(Seq<Seq<char>>, int)>,
                    }));
                }
                let ghost before = out@;
                out.push(a);
                proof {
                    assert(out@.map_values(|a2: String| a2@) =~= mapped.push(
                        out@[out@.len() - 1]@,
                    ));
                    if parse_addrs(s@, p2 as int, cnt - j - 1) is Some {
                        let (rest, pe) = parse_addrs(s@, p2 as int, cnt - j - 1)->Some_0;
                        assert(mapped + (seq![out@[out@.len() - 1]@] + rest) =~= out@.map_values(
                            |a2: String| a2@,
                        ) + rest);
                    }
                }
                cur = p2;
                j = j + 1;
            },
        }
    }
    proof {
        assert(parse_addrs(s@, cur as int, 0) == Some((Seq::<Seq<char>>::empty(), cur as int)));
        assert(out@.map_values(|a: String| a@) + Seq::<Seq<char>>::empty() =~= out@.map_values(
            |a: String| a@,
        ));
    }
    Some((out, cur))
}

/// Reads one output at `p`.
fn parse_output_exec(s: &Vec<char>, p: usize) -> (r: Option<(CoinbaseOutput, usize)>)
    ensures
        (r is Some) == (parse_output(s@, p as int) is Some),
        r is Some ==> ({
            &&& parse_output(s@, p as int)->Some_0.0 == r->Some_0.0@
            &&& parse_output(s@, p as int)->Some_0.1 == r->Some_0.1 as int
        }),
{
    let slen: usize = s.len();
    let bits: u64 = match parse_hex_exec(s, p, 16) {
        Some(b) => b,
        None => {
            return None;
        },
    };
    proof {
        assert(p + 16 <= slen);
    }
    let cnt: u64 = match parse_hex_exec(s, p + 16, 16) {
        Some(c) => c,
        None => {
            return None;
        },
    };
    proof {
        assert(p + 32 <= slen);
    }
    let (addrs, p2) = match parse_addrs_exec(s, p + 32, cnt) {
        Some(pair) => pair,
        None => {
            return None;
        },
    };
    let value: i64 = if bits < 0x8000_0000_0000_0000u64 {
        bits as i64
    } else {
        -((0xFFFF_FFFF_FFFF_FFFFu64 - bits) as i64) - 1
    };
    proof {
        assert(value as int == val_of_bits(bits as int));
    }
    let output = CoinbaseOutput { value_zat: value, addresses: addrs };
    proof {
        assert(output@ =~~= parse_output(s@, p as int)->Some_0.0);
    }
    Some((output, p2))
}

/// Reads `cnt` outputs at `p`.
fn parse_outputs_exec(s: &Vec<char>, p: usize, cnt: u64) -> (r: Option<(Vec<CoinbaseOutput>, usize)>)
    ensures
        (r is Some) == (parse_outputs(s@, p as int, cnt as int) is Some),
        r is Some ==> ({
            &&& parse_outputs(s@, p as int, cnt as int)->Some_0.0 == r->Some_0.0@.map_values(
                |o: CoinbaseOutput| o@,
            )
            &&& parse_outputs(s@, p as int, cnt as int)->Some_0.1 == r->Some_0.1 as int
        }),
{
    let mut out: Vec<CoinbaseOutput> = Vec::new();
    let mut cur: usize = p;
    let mut j: u64 = 0;
    while j < cnt
        invariant
            j <= cnt,
            parse_outputs(s@, p as int, cnt as int) == (match parse_outputs(
                s@,
                cur as int,
                cnt - j,
            ) {
                Some((rest, pe)) => Some((out@.map_values(|o: CoinbaseOutput| o@) + rest, pe)),
                None => None::<(Seq<OutputModel>, int)>,
            }),
        decreases cnt - j,
    {
        let ghost mapped = out@.map_values(|o: CoinbaseOutput| o@);
        match parse_output_exec(s, cur) {
            None => {
                proof {
                    assert(parse_outputs(s@, cur as int, cnt - j) is None);
                }
                return None;
            },
            Some((o, p2)) => {
                proof {
                    assert(parse_outputs(s@, cur as int, cnt - j) == (match parse_outputs(
                        s@,
                        p2 as int,
                        cnt - j - 1,
                    ) {
                        Some((rest, pe)) => Some((seq![o@] + rest, pe)),
                        None => None::<(Seq<OutputModel>, int)>,
                    }));
                }
                out.push(o);
                proof {
                    assert(out@.map_values(|o2: CoinbaseOutput| o2@) =~= mapped.push(
                        out@[out@.len() - 1]@,
                    ));
                    if parse_outputs(s@, p2 as int, cnt - j - 1) is Some {
                        let (rest, pe) = parse_outputs(s@, p2 as int, cnt - j - 1)->Some_0;
                        assert(mapped + (seq![out@[out@.len() - 1]@] + rest) =~= out@.map_values(
                            |o2: CoinbaseOutput| o2@,
                        ) + rest);
                    }
                }
                cur = p2;
                j = j + 1;
            },
        }
    }
    proof {
        assert(parse_outputs(s@, cur as int, 0) == Some((Seq::<OutputModel>::empty(), cur as int)));
        assert(out@.map_values(|o: CoinbaseOutput| o@) + Seq::<OutputModel>::empty()
            =~= out@.map_values(|o: CoinbaseOutput| o@));
    }
    Some((out, cur))
}

/// Reads one block at `p`.
fn parse_block_exec(s: &Vec<char>, p: usize) -> (r: Option<(CachedBlock, usize)>)
    ensures
        (r is Some) == (parse_block(s@, p as int) is Some),
        r is Some ==> ({
            &&& parse_block(s@, p as int)->Some_0.0 == r->Some_0.0@
            &&& parse_block(s@, p as int)->Some_0.1 == r->Some_0.1 as int
        }),
{
    let slen: usize = s.len();
    let h: u64 = match parse_hex_exec(s, p, 8) {
        Some(h) => h,
        None => {
            return None;
        },
    };
    proof {
        assert(p + 8 <= slen);
    }
    let (hash, p2) = match parse_string_exec(s, p + 8) {
        Some(pair) => pair,
        None => {
            return None;
        },
    };
    let cnt: u64 = match parse_hex_exec(s, p2, 16) {
        Some(c) => c,
        None => {
            return None;
        },
    };
    proof {
        assert(p2 + 16 <= slen);
    }
    let (outputs, p3) = match parse_outputs_exec(s, p2 + 16, cnt) {
        Some(pair) => pair,
        None => {
            return None;
        },
    };
    proof {
        lemma_parse_hex_bound(s@, p as int, 8);
        assert(pow16(8) == 0x1_0000_0000) by {
            reveal_with_fuel(pow16, 9);
        }
    }
    let block = CachedBlock { height: h as u32, hash, outputs };
    proof {
        assert(block@ =~~= parse_block(s@, p as int)->Some_0.0);
    }
    Some((block, p3))
}

/// Reads `cnt` blocks at `p`.
fn parse_blocks_exec(s: &Vec<char>, p: usize, cnt: u64) -> (r: Option<(Vec<CachedBlock>, usize)>)
    ensures
        (r is Some) == (parse_blocks(s@, p as int, cnt as int) is Some),
        r is Some ==> ({
            &&& parse_blocks(s@, p as int, cnt as int)->Some_0.0 == r->Some_0.0@.map_values(
                |b: CachedBlock| b@,
            )
            &&& parse_blocks(s@, p as int, cnt as int)->Some_0.1 == r->Some_0.1 as int
        }),
{
    let mut out: Vec<CachedBlock> = Vec::new();
    let mut cur: usize = p;
    let mut j: u64 = 0;
    while j < cnt
        invariant
            j <= cnt,
            parse_blocks(s@, p as int, cnt as int) == (match parse_blocks(
                s@,
                cur as int,
                cnt - j,
            ) {
                Some((rest, pe)) => Some((out@.map_values(|b: CachedBlock| b@) + rest, pe)),
                None => None::<(Seq<BlockModel>, int)>,
            }),
        decreases cnt - j,
    {
        let ghost mapped = out@.map_values(|b: CachedBlock| b@);
        match parse_block_exec(s, cur) {
            None => {
                proof {
                    assert(parse_blocks(s@, cur as int, cnt - j) is None);
                }
                return None;
            },
            Some((b, p2)) => {
                proof {
                    assert(parse_blocks(s@, cur as int, cnt - j) == (match parse_blocks(
                        s@,
                        p2 as int,
                        cnt - j - 1,
                    ) {
                        Some((rest, pe)) => Some((seq![b@] + rest, pe)),
                        None => None::<(Seq<BlockModel>, int)>,
                    }));
                }
                out.push(b);
                proof {
                    assert(out@.map_values(|b2: CachedBlock| b2@) =~= mapped.push(
                        out@[out@.len() - 1]@,
                    ));
                    if parse_blocks(s@, p2 as int, cnt - j - 1) is Some {
                        let (rest, pe) = parse_blocks(s@, p2 as int, cnt - j - 1)->Some_0;
                        assert(mapped + (seq![out@[out@.len() - 1]@] + rest) =~= out@.map_values(
                            |b2: CachedBlock| b2@,
                        ) + rest);
                    }
                }
                cur = p2;
                j = j + 1;
            },
        }
    }
    proof {
        assert(parse_blocks(s@, cur as int, 0) == Some((Seq::<BlockModel>::empty(), cur as int)));
        assert(out@.map_values(|b: CachedBlock| b@) + Seq::<BlockModel>::empty() =~= out@.map_values(
            |b: CachedBlock| b@,
        ));
    }
    Some((out, cur))
}

/// Whether the parsed blocks carry pairwise-distinct heights.
fn heights_unique_exec(blocks: &Vec<CachedBlock>) -> (r: bool)
    ensures
        r == heights_unique(blocks@.map_values(|b: CachedBlock| b@)),
{
    let ghost mapped = blocks@.map_values(|b: CachedBlock| b@);
    let n: usize = blocks.len();
    let mut i: usize = 0;
    while i < n
        invariant
            n == blocks@.len(),
            mapped == blocks@.map_values(|b: CachedBlock| b@),
            i <= n,
            forall|a: int, b: int|
                0 <= a < b < n && a < i ==> (#[trigger] mapped[a]).height != (
                #[trigger] mapped[b]).height,
        decreases n - i,
    {
        let mut j: usize = i + 1;
        while j < n
            invariant
                n == blocks@.len(),
                mapped == blocks@.map_values(|b: CachedBlock| b@),
                i < j <= n || (i + 1 == j && j > n),
                i < n,
                forall|b: int| i < b < j ==> mapped[i as int].height != (#[trigger] mapped[b]).height,
            decreases n - j,
        {
            if blocks[i].height == blocks[j].height {
                proof {
                    assert(mapped[i as int].height == mapped[j as int].height);
                    assert(!heights_unique(mapped));
                }
                return false;
            }
            j = j + 1;
        }
        i = i + 1;
    }
    true
}

impl BlockCache {
    /// Parses a cache document. Yields `CacheCorrupt` exactly when the
    /// document is not a well-formed encoding (including trailing content
    /// or a repeated height); otherwise the cache it holds, well formed.
    pub fn decode(text: &Vec<char>) -> (r: Result<BlockCache, StatsError>)
        ensures
            (r is Ok) == (parse_cache(text@) is Some),
            r is Ok ==> r->Ok_0@ == parse_cache(text@)->Some_0 && r->Ok_0.wf(),
            r is Err ==> r->Err_0 == StatsError::CacheCorrupt,
    {
        if text.len() < 1 {
            return Err(StatsError::CacheCorrupt);
        }
        let tag: char = text[0];
        let mut last_tip: Option<u32> = None;
        let mut p: usize = 1;
        if tag == 'n' {
        } else if tag == 't' {
            let v: u64 = match parse_hex_exec(text, 1, 8) {
                Some(v) => v,
                None => {
                    return Err(StatsError::CacheCorrupt);
                },
            };
            proof {
                lemma_parse_hex_bound(text@, 1, 8);
                assert(pow16(8) == 0x1_0000_0000) by {
                    reveal_with_fuel(pow16, 9);
                }
            }
            last_tip = Some(v as u32);
            p = 9;
        } else {
            return Err(StatsError::CacheCorrupt);
        }
        proof {
            assert(parse_tip(text@) == Some((last_tip, p as int)));
        }
        let cnt: u64 = match parse_hex_exec(text, p, 16) {
            Some(c) => c,
            None => {
                return Err(StatsError::CacheCorrupt);
            },
        };
        let (blocks, pend) = match parse_blocks_exec(text, p + 16, cnt) {
            Some(pair) => pair,
            None => {
                return Err(StatsError::CacheCorrupt);
            },
        };
        if pend != text.len() {
            return Err(StatsError::CacheCorrupt);
        }
        if !heights_unique_exec(&blocks) {
            return Err(StatsError::CacheCorrupt);
        }
        let cache = BlockCache { last_tip, blocks };
        proof {
            assert(cache@ =~~= parse_cache(text@)->Some_0);
        }
        Ok(cache)
    }
}

} // verus!
