//! The canonical encoding of a block: compact JSON with a fixed field order.
//!
//! `{"prior":"<hex>","controllers":["<hex>",...],"seals":[{"data":"<text>"},{"digest":"<text>"},...]}`
//!
//! Byte strings are written in lowercase hex. Text is its UTF-8 bytes with
//! `"` and `\` escaped by a backslash and each byte below 0x20 as `\u00XX`.
use crate::block::{Block, BlockView};
use crate::seal::{SealData, SealView};
use vstd::prelude::*;

verus! {

broadcast use vstd::seq::group_seq_axioms;

pub open spec fn hex_digit(n: u8) -> u8 {
    if n < 10 {
        (48 + n) as u8
    } else {
        (87 + n) as u8
    }
}

/// Two lowercase hex digits for each byte.
pub open spec fn hex(bs: Seq<u8>) -> Seq<u8>
    decreases bs.len(),
{
    if bs.len() == 0 {
        Seq::empty()
    } else {
        hex(bs.drop_last()) + seq![hex_digit(bs.last() / 16), hex_digit(bs.last() % 16)]
    }
}

/// How one byte of text is written inside a JSON string.
pub open spec fn escape_byte(b: u8) -> Seq<u8> {
    if b == 34 || b == 92 {
        seq![92u8, b]
    } else if b < 32 {
        seq![92u8, 117, 48, 48, hex_digit(b / 16), hex_digit(b % 16)]
    } else {
        seq![b]
    }
}

pub open spec fn escape(bs: Seq<u8>) -> Seq<u8>
    decreases bs.len(),
{
    if bs.len() == 0 {
        Seq::empty()
    } else {
        escape(bs.drop_last()) + escape_byte(bs.last())
    }
}

pub open spec fn quoted(x: Seq<u8>) -> Seq<u8> {
    seq![34u8] + x + seq![34u8]
}

/// Items one after another, separated by commas.
pub open spec fn join(items: Seq<Seq<u8>>) -> Seq<u8>
    decreases items.len(),
{
    if items.len() == 0 {
        Seq::empty()
    } else if items.len() == 1 {
        items[0]
    } else {
        join(items.drop_last()) + seq![44u8] + items.last()
    }
}

/// The JSON string of a text.
pub open spec fn text_json(s: Seq<char>) -> Seq<u8> {
    quoted(escape(vstd::utf8::encode_utf8(s)))
}

/// `{"data":`
#[verifier::opaque]
pub open spec fn data_head() -> Seq<u8> {
    seq![123u8, 34, 100, 97, 116, 97, 34, 58]
}

/// `{"digest":`
#[verifier::opaque]
pub open spec fn digest_head() -> Seq<u8> {
    seq![123u8, 34, 100, 105, 103, 101, 115, 116, 34, 58]
}

/// `{"prior":`
#[verifier::opaque]
pub open spec fn prior_head() -> Seq<u8> {
    seq![123u8, 34, 112, 114, 105, 111, 114, 34, 58]
}

/// `,"controllers":[`
#[verifier::opaque]
pub open spec fn controllers_head() -> Seq<u8> {
    seq![44u8, 34, 99, 111, 110, 116, 114, 111, 108, 108, 101, 114, 115, 34, 58, 91]
}

/// `],"seals":[`
#[verifier::opaque]
pub open spec fn seals_head() -> Seq<u8> {
    seq![93u8, 44, 34, 115, 101, 97, 108, 115, 34, 58, 91]
}

/// `]}`
#[verifier::opaque]
pub open spec fn block_tail() -> Seq<u8> {
    seq![93u8, 125]
}

/// The lengths of the fixed pieces, and the bytes that tell them apart.
pub proof fn lemma_heads()
    ensures
        prior_head().len() == 9,
        controllers_head().len() == 16,
        seals_head().len() == 11,
        seals_head()[0] == 93,
        seals_head() == seq![93u8] + seals_head().drop_first(),
        block_tail() == seq![93u8, 125],
        data_head().len() == 8,
        digest_head().len() == 10,
        data_head()[0] == 123,
        digest_head()[0] == 123,
        data_head()[3] != digest_head()[3],
{
    reveal(prior_head);
    reveal(controllers_head);
    reveal(seals_head);
    reveal(block_tail);
    reveal(data_head);
    reveal(digest_head);
    assert(seals_head() =~= seq![93u8] + seals_head().drop_first());
}

pub open spec fn seal_json(s: SealView) -> Seq<u8> {
    match s {
        SealView::AttachedData(t) => data_head() + text_json(t) + seq![125u8],
        SealView::Digest(t) => digest_head() + text_json(t) + seq![125u8],
    }
}

/// The JSON strings of the controllers' keys.
pub open spec fn id_items(ids: Seq<Seq<u8>>) -> Seq<Seq<u8>> {
    ids.map_values(|k: Seq<u8>| quoted(hex(k)))
}

/// The JSON objects of the seals.
pub open spec fn seal_items(seals: Seq<SealView>) -> Seq<Seq<u8>> {
    seals.map_values(|s: SealView| seal_json(s))
}

/// The canonical bytes of a block.
pub open spec fn block_json(b: BlockView) -> Seq<u8> {
    prior_head() + (quoted(hex(b.prior)) + (controllers_head() + (join(id_items(b.controllers))
        + (seals_head() + (join(seal_items(b.seals)) + block_tail())))))
}

/// Appends `b` to `out`.
fn push_all(out: &mut Vec<u8>, b: &[u8])
    ensures
        final(out)@ == old(out)@ + b@,
{
    let mut i: usize = 0;
    while i < b.len()
        invariant
            i <= b@.len(),
            out@ == old(out)@ + b@.subrange(0, i as int),
        decreases b@.len() - i,
    {
        out.push(b[i]);
        assert(b@.subrange(0, i as int + 1) =~= b@.subrange(0, i as int).push(b@[i as int]));
        i = i + 1;
    }
    assert(b@ =~= b@.subrange(0, i as int));
}

fn hex_digit_of(n: u8) -> (r: u8)
    requires
        n < 16,
    ensures
        r == hex_digit(n),
{
    if n < 10 {
        48 + n
    } else {
        87 + n
    }
}

/// Appends the hex digits of `bs` to `out`.
fn push_hex(out: &mut Vec<u8>, bs: &[u8])
    ensures
        final(out)@ == old(out)@ + hex(bs@),
{
    let mut i: usize = 0;
    while i < bs.len()
        invariant
            i <= bs@.len(),
            out@ == old(out)@ + hex(bs@.subrange(0, i as int)),
        decreases bs@.len() - i,
    {
        let b = bs[i];
        out.push(hex_digit_of(b / 16));
        out.push(hex_digit_of(b % 16));
        let ghost pre = bs@.subrange(0, i as int + 1);
        assert(pre.drop_last() =~= bs@.subrange(0, i as int));
        i = i + 1;
    }
    assert(bs@ =~= bs@.subrange(0, i as int));
}

/// Appends the escaped form of `bs` to `out`.
fn push_escaped(out: &mut Vec<u8>, bs: &[u8])
    ensures
        final(out)@ == old(out)@ + escape(bs@),
{
    let mut i: usize = 0;
    while i < bs.len()
        invariant
            i <= bs@.len(),
            out@ == old(out)@ + escape(bs@.subrange(0, i as int)),
        decreases bs@.len() - i,
    {
        let b = bs[i];
        if b == 34 || b == 92 {
            out.push(92);
            out.push(b);
        } else if b < 32 {
            out.push(92);
            out.push(117);
            out.push(48);
            out.push(48);
            out.push(hex_digit_of(b / 16));
            out.push(hex_digit_of(b % 16));
        } else {
            out.push(b);
        }
        let ghost pre = bs@.subrange(0, i as int + 1);
        assert(pre.drop_last() =~= bs@.subrange(0, i as int));
        i = i + 1;
    }
    assert(bs@ =~= bs@.subrange(0, i as int));
}

fn push_text(out: &mut Vec<u8>, s: &String)
    ensures
        final(out)@ == old(out)@ + text_json(s@),
{
    let ghost start = out@;
    out.push(34);
    push_escaped(out, s.as_str().as_bytes());
    out.push(34);
    assert(out@ =~= start + text_json(s@));
}

fn push_seal(out: &mut Vec<u8>, s: &SealData)
    ensures
        final(out)@ == old(out)@ + seal_json(s@),
{
    let ghost start = out@;
    reveal(data_head);
    reveal(digest_head);
    match s {
        SealData::AttachedData(t) => {
            push_all(out, &[123u8, 34, 100, 97, 116, 97, 34, 58]);
            push_text(out, t);
        },
        SealData::Digest(t) => {
            push_all(out, &[123u8, 34, 100, 105, 103, 101, 115, 116, 34, 58]);
            push_text(out, t);
        },
    }
    out.push(125);
    assert(out@ =~= start + seal_json(s@));
}

pub proof fn lemma_join_push(items: Seq<Seq<u8>>, x: Seq<u8>)
    ensures
        join(items.push(x)) == if items.len() == 0 {
            x
        } else {
            join(items) + seq![44u8] + x
        },
{
    assert(items.push(x).drop_last() =~= items);
}

/// The canonical bytes of a block: what is signed, and what is hashed to link
/// the next block to it.
pub fn encode_block(b: &Block) -> (r: Vec<u8>)
    ensures
        r@ == block_json(b@),
{
    reveal(prior_head);
    reveal(controllers_head);
    reveal(seals_head);
    reveal(block_tail);
    let mut out: Vec<u8> = Vec::new();
    push_all(&mut out, &[123u8, 34, 112, 114, 105, 111, 114, 34, 58]);
    out.push(34);
    push_hex(&mut out, b.prior_digest.as_slice());
    out.push(34);
    push_all(
        &mut out,
        &[44u8, 34, 99, 111, 110, 116, 114, 111, 108, 108, 101, 114, 115, 34, 58, 91],
    );
    let ghost head = out@;
    let ids = &b.controlling_identifiers;
    let ghost items = ids@.map_values(|i: crate::block::NontransferableIdentifier| quoted(hex(i@)));
    let mut i: usize = 0;
    while i < ids.len()
        invariant
            i <= ids@.len(),
            items == ids@.map_values(|i: crate::block::NontransferableIdentifier| quoted(hex(i@))),
            out@ == head + join(items.subrange(0, i as int)),
        decreases ids@.len() - i,
    {
        let ghost before = out@;
        if i > 0 {
            out.push(44);
        }
        out.push(34);
        push_hex(&mut out, ids[i].0.as_slice());
        out.push(34);
        proof {
            lemma_join_push(items.subrange(0, i as int), items[i as int]);
            assert(items.subrange(0, i as int + 1) =~= items.subrange(0, i as int).push(items[i as int]));
            if i == 0 {
                assert(join(items.subrange(0, 0)) =~= Seq::<u8>::empty());
            }
            assert(out@ =~= head + join(items.subrange(0, i as int + 1)));
        }
        i = i + 1;
    }
    proof {
        assert(items.subrange(0, i as int) =~= items);
        assert(items =~= id_items(b@.controllers));
    }
    push_all(&mut out, &[93u8, 44, 34, 115, 101, 97, 108, 115, 34, 58, 91]);
    let ghost head2 = out@;
    let seals = &b.seal_bundle.seals;
    let ghost sitems = seals@.map_values(|s: SealData| seal_json(s@));
    let mut j: usize = 0;
    while j < seals.len()
        invariant
            j <= seals@.len(),
            sitems == seals@.map_values(|s: SealData| seal_json(s@)),
            out@ == head2 + join(sitems.subrange(0, j as int)),
        decreases seals@.len() - j,
    {
        if j > 0 {
            out.push(44);
        }
        push_seal(&mut out, &seals[j]);
        proof {
            lemma_join_push(sitems.subrange(0, j as int), sitems[j as int]);
            assert(sitems.subrange(0, j as int + 1) =~= sitems.subrange(0, j as int).push(sitems[j as int]));
            if j == 0 {
                assert(join(sitems.subrange(0, 0)) =~= Seq::<u8>::empty());
            }
            assert(out@ =~= head2 + join(sitems.subrange(0, j as int + 1)));
        }
        j = j + 1;
    }
    proof {
        assert(sitems.subrange(0, j as int) =~= sitems);
        assert(sitems =~= seal_items(b@.seals));
    }
    push_all(&mut out, &[93u8, 125]);
    assert(out@ =~= block_json(b@));
    out
}

} // verus!
