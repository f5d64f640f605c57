//! Canonical block bytes are valid UTF-8.
use crate::block::BlockView;
use crate::codec::{
    block_json, block_tail, controllers_head, data_head, digest_head, escape, escape_byte, hex,
    hex_digit, id_items, join, prior_head, quoted, seal_items, seal_json, seals_head, text_json,
};
use crate::seal::SealView;
use vstd::prelude::*;
use vstd::utf8::{encode_scalar, encode_utf8, valid_utf8};

verus! {

broadcast use vstd::seq::group_seq_axioms;

/// Every byte is below 0x80.
pub open spec fn ascii_seq(b: Seq<u8>) -> bool {
    forall|i: int| 0 <= i < b.len() ==> #[trigger] b[i] < 128
}

proof fn lemma_ascii_byte_valid(x: u8)
    requires
        x < 128,
    ensures
        valid_utf8(seq![x]),
{
    let c = x as char;
    let w = x as u32;
    assert(c as u32 == w);
    assert((w & 0x7F) as u8 == x) by (bit_vector)
        requires
            w == x as u32,
            x < 128,
    ;
    vstd::utf8::encode_utf8_valid_utf8(seq![c]);
    assert(seq![c].drop_first() =~= Seq::<char>::empty());
    assert(encode_utf8(Seq::<char>::empty()) =~= Seq::<u8>::empty());
    assert(seq![c][0] as u32 == w);
    assert(vstd::utf8::has_width_1_encoding(w));
    assert(encode_scalar(w) =~= seq![x]);
    assert(encode_utf8(seq![c]) == encode_scalar(seq![c][0] as u32) + encode_utf8(seq![c].drop_first()));
    assert(encode_utf8(seq![c]) =~= seq![x]);
}

pub(crate) proof fn lemma_ascii_valid(b: Seq<u8>)
    requires
        ascii_seq(b),
    ensures
        valid_utf8(b),
    decreases b.len(),
{
    if b.len() == 0 {
    } else {
        lemma_ascii_byte_valid(b[0]);
        lemma_ascii_valid(b.drop_first());
        vstd::utf8::valid_utf8_concat(seq![b[0]], b.drop_first());
        assert(b =~= seq![b[0]] + b.drop_first());
    }
}

proof fn lemma_high_bytes(x: u8)
    ensures
        (0x80u8 | x) >= 128,
        (0xC0u8 | x) >= 128,
        (0xE0u8 | x) >= 128,
        (0xF0u8 | x) >= 128,
{
    assert((0x80u8 | x) >= 128 && (0xC0u8 | x) >= 128 && (0xE0u8 | x) >= 128 && (0xF0u8 | x) >= 128) by (bit_vector);
}

proof fn lemma_escape_high(b: Seq<u8>)
    requires
        forall|i: int| 0 <= i < b.len() ==> #[trigger] b[i] >= 128,
    ensures
        escape(b) == b,
    decreases b.len(),
{
    if b.len() > 0 {
        lemma_escape_high(b.drop_last());
        assert(escape_byte(b.last()) =~= seq![b.last()]);
        assert(b.drop_last() + seq![b.last()] =~= b);
    }
}

proof fn lemma_escape_byte_ascii(x: u8)
    requires
        x < 128,
    ensures
        ascii_seq(escape_byte(x)),
{
}

proof fn lemma_escaped_scalar_valid(c: char)
    ensures
        valid_utf8(escape(encode_scalar(c as u32))),
{
    let w = c as u32;
    let es = encode_scalar(w);
    vstd::utf8::encode_utf8_valid_utf8(seq![c]);
    assert(seq![c].drop_first() =~= Seq::<char>::empty());
    assert(encode_utf8(Seq::<char>::empty()) =~= Seq::<u8>::empty());
    assert(seq![c][0] == c);
    assert(encode_utf8(seq![c]) == encode_scalar(seq![c][0] as u32) + encode_utf8(seq![c].drop_first()));
    assert(encode_utf8(seq![c]) =~= es);
    if vstd::utf8::has_width_1_encoding(w) {
        let x = (w & 0x7F) as u8;
        assert(x < 128) by (bit_vector)
            requires
                x == (w & 0x7F) as u8,
        ;
        assert(es =~= seq![x]);
        assert(seq![x].drop_last() =~= Seq::<u8>::empty());
        assert(escape(Seq::<u8>::empty()) == Seq::<u8>::empty());
        assert(escape(seq![x]) =~= escape_byte(x));
        lemma_escape_byte_ascii(x);
        lemma_ascii_valid(escape_byte(x));
    } else {
        lemma_high_bytes(((w >> 6) & 0x1F) as u8);
        lemma_high_bytes((w & 0x3F) as u8);
        lemma_high_bytes(((w >> 12) & 0x0F) as u8);
        lemma_high_bytes(((w >> 6) & 0x3F) as u8);
        lemma_high_bytes(((w >> 18) & 0x7) as u8);
        lemma_high_bytes(((w >> 12) & 0x3F) as u8);
        assert forall|i: int| 0 <= i < es.len() implies #[trigger] es[i] >= 128 by {}
        lemma_escape_high(es);
    }
}

proof fn lemma_escaped_text_valid(cs: Seq<char>)
    ensures
        valid_utf8(escape(encode_utf8(cs))),
    decreases cs.len(),
{
    if cs.len() == 0 {
        assert(encode_utf8(cs) =~= Seq::<u8>::empty());
        assert(escape(Seq::<u8>::empty()) == Seq::<u8>::empty());
        lemma_ascii_valid(Seq::<u8>::empty());
    } else {
        let es = encode_scalar(cs[0] as u32);
        let rest = encode_utf8(cs.drop_first());
        assert(encode_utf8(cs) == es + rest);
        crate::decode::lemma_escape_append(es, rest);
        lemma_escaped_scalar_valid(cs[0]);
        lemma_escaped_text_valid(cs.drop_first());
        vstd::utf8::valid_utf8_concat(escape(es), escape(rest));
    }
}

proof fn lemma_cat(a: Seq<u8>, b: Seq<u8>)
    requires
        valid_utf8(a),
        valid_utf8(b),
    ensures
        valid_utf8(a + b),
{
    vstd::utf8::valid_utf8_concat(a, b);
}

proof fn lemma_ascii_lit(b: Seq<u8>)
    requires
        ascii_seq(b),
    ensures
        valid_utf8(b),
{
    lemma_ascii_valid(b);
}

proof fn lemma_hex_ascii(x: Seq<u8>)
    ensures
        ascii_seq(hex(x)),
    decreases x.len(),
{
    if x.len() > 0 {
        lemma_hex_ascii(x.drop_last());
        crate::decode::lemma_byte_digits(x.last());
        let p = seq![hex_digit(x.last() / 16), hex_digit(x.last() % 16)];
        assert forall|i: int| 0 <= i < hex(x).len() implies #[trigger] hex(x)[i] < 128 by {
            if i >= hex(x.drop_last()).len() {
                assert(hex(x)[i] == p[i - hex(x.drop_last()).len()]);
            }
        }
    }
}

proof fn lemma_text_json_valid(cs: Seq<char>)
    ensures
        valid_utf8(text_json(cs)),
{
    lemma_escaped_text_valid(cs);
    lemma_ascii_lit(seq![34u8]);
    lemma_cat(seq![34u8], escape(encode_utf8(cs)));
    lemma_cat(seq![34u8] + escape(encode_utf8(cs)), seq![34u8]);
}

proof fn lemma_join_valid(items: Seq<Seq<u8>>)
    requires
        forall|i: int| 0 <= i < items.len() ==> valid_utf8(#[trigger] items[i]),
    ensures
        valid_utf8(join(items)),
    decreases items.len(),
{
    if items.len() == 0 {
        lemma_ascii_lit(Seq::<u8>::empty());
    } else if items.len() == 1 {
    } else {
        lemma_join_valid(items.drop_last());
        lemma_ascii_lit(seq![44u8]);
        lemma_cat(join(items.drop_last()), seq![44u8]);
        lemma_cat(join(items.drop_last()) + seq![44u8], items.last());
    }
}

proof fn lemma_heads_ascii()
    ensures
        ascii_seq(prior_head()),
        ascii_seq(controllers_head()),
        ascii_seq(seals_head()),
        ascii_seq(block_tail()),
        ascii_seq(data_head()),
        ascii_seq(digest_head()),
{
    reveal(prior_head);
    reveal(controllers_head);
    reveal(seals_head);
    reveal(block_tail);
    reveal(data_head);
    reveal(digest_head);
}

proof fn lemma_seal_json_valid(s: SealView)
    ensures
        valid_utf8(seal_json(s)),
{
    lemma_heads_ascii();
    lemma_ascii_lit(data_head());
    lemma_ascii_lit(digest_head());
    lemma_ascii_lit(seq![125u8]);
    match s {
        SealView::AttachedData(t) => {
            lemma_text_json_valid(t);
            lemma_cat(data_head(), text_json(t));
            lemma_cat(data_head() + text_json(t), seq![125u8]);
        },
        SealView::Digest(t) => {
            lemma_text_json_valid(t);
            lemma_cat(digest_head(), text_json(t));
            lemma_cat(digest_head() + text_json(t), seq![125u8]);
        },
    }
}

/// The canonical bytes of every block are valid UTF-8.
pub proof fn lemma_block_json_valid(v: BlockView)
    ensures
        valid_utf8(block_json(v)),
{
    lemma_heads_ascii();
    lemma_hex_ascii(v.prior);
    lemma_ascii_lit(hex(v.prior));
    lemma_ascii_lit(seq![34u8]);
    lemma_cat(seq![34u8], hex(v.prior));
    lemma_cat(seq![34u8] + hex(v.prior), seq![34u8]);
    let ids = id_items(v.controllers);
    assert forall|i: int| 0 <= i < ids.len() implies valid_utf8(#[trigger] ids[i]) by {
        lemma_hex_ascii(v.controllers[i]);
        lemma_ascii_lit(hex(v.controllers[i]));
        lemma_cat(seq![34u8], hex(v.controllers[i]));
        lemma_cat(seq![34u8] + hex(v.controllers[i]), seq![34u8]);
    }
    lemma_join_valid(ids);
    let seals = seal_items(v.seals);
    assert forall|i: int| 0 <= i < seals.len() implies valid_utf8(#[trigger] seals[i]) by {
        lemma_seal_json_valid(v.seals[i]);
    }
    lemma_join_valid(seals);
    lemma_ascii_lit(prior_head());
    lemma_ascii_lit(controllers_head());
    lemma_ascii_lit(seals_head());
    lemma_ascii_lit(block_tail());
    let f = join(seals) + block_tail();
    lemma_cat(join(seals), block_tail());
    let e = seals_head() + f;
    lemma_cat(seals_head(), f);
    let d = join(ids) + e;
    lemma_cat(join(ids), e);
    let c = controllers_head() + d;
    lemma_cat(controllers_head(), d);
    let b = quoted(hex(v.prior)) + c;
    lemma_cat(quoted(hex(v.prior)), c);
    lemma_cat(prior_head(), b);
}

} // verus!
