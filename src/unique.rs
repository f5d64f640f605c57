//! Canonical bytes name one block: the encoding is injective.
use crate::block::BlockView;
use crate::codec::{
    block_json, block_tail, controllers_head, data_head, digest_head, escape, escape_byte, hex,
    hex_digit, id_items, join, prior_head, quoted, seal_items, seal_json, seals_head, text_json,
};
use crate::decode::{lemma_byte_digits, lemma_escape_front, lemma_hex_front, lemma_join_front};
use crate::seal::SealView;
use vstd::prelude::*;

verus! {

broadcast use vstd::seq::group_seq_axioms;

proof fn lemma_drop_common(a: Seq<u8>, t1: Seq<u8>, t2: Seq<u8>)
    requires
        a + t1 == a + t2,
    ensures
        t1 == t2,
{
    assert(t1 =~= (a + t1).subrange(a.len() as int, (a + t1).len() as int));
    assert(t2 =~= (a + t2).subrange(a.len() as int, (a + t2).len() as int));
}

proof fn lemma_hex_digit_unique(a: u8, b: u8)
    requires
        a < 16,
        b < 16,
        hex_digit(a) == hex_digit(b),
    ensures
        a == b,
{
}

proof fn lemma_hex_digit_not_quote(a: u8)
    requires
        a < 16,
    ensures
        hex_digit(a) != 34,
{
}

proof fn lemma_hex_unique(x1: Seq<u8>, x2: Seq<u8>, r1: Seq<u8>, r2: Seq<u8>)
    requires
        hex(x1) + (seq![34u8] + r1) == hex(x2) + (seq![34u8] + r2),
    ensures
        x1 == x2,
        r1 == r2,
    decreases x1.len(),
{
    let s = hex(x1) + (seq![34u8] + r1);
    if x1.len() > 0 {
        lemma_hex_front(x1);
        lemma_byte_digits(x1[0]);
        lemma_hex_digit_not_quote(x1[0] / 16);
        assert(s[0] == hex_digit(x1[0] / 16));
    }
    if x2.len() > 0 {
        lemma_hex_front(x2);
        lemma_byte_digits(x2[0]);
        lemma_hex_digit_not_quote(x2[0] / 16);
        assert((hex(x2) + (seq![34u8] + r2))[0] == hex_digit(x2[0] / 16));
    }
    if x1.len() == 0 {
        assert(s[0] == 34);
        assert(hex(x1) =~= Seq::<u8>::empty());
        if x2.len() == 0 {
            assert(hex(x2) =~= Seq::<u8>::empty());
            assert(s =~= seq![34u8] + r1);
            lemma_drop_common(seq![34u8], r1, r2);
        }
    } else if x2.len() == 0 {
        assert((hex(x2) + (seq![34u8] + r2))[0] == 34) by {
            assert(hex(x2) =~= Seq::<u8>::empty());
        }
    } else {
        let p1 = seq![hex_digit(x1[0] / 16), hex_digit(x1[0] % 16)];
        let p2 = seq![hex_digit(x2[0] / 16), hex_digit(x2[0] % 16)];
        let t1 = hex(x1.drop_first()) + (seq![34u8] + r1);
        let t2 = hex(x2.drop_first()) + (seq![34u8] + r2);
        assert(s =~= p1 + t1);
        assert(hex(x2) + (seq![34u8] + r2) =~= p2 + t2);
        assert(s[0] == p2[0] && s[1] == p2[1]);
        lemma_hex_digit_unique(x1[0] / 16, x2[0] / 16);
        lemma_hex_digit_unique(x1[0] % 16, x2[0] % 16);
        assert(x1[0] == x2[0]);
        assert(p1 == p2);
        lemma_drop_common(p1, t1, t2);
        lemma_hex_unique(x1.drop_first(), x2.drop_first(), r1, r2);
        assert(x1 =~= seq![x1[0]] + x1.drop_first());
        assert(x2 =~= seq![x2[0]] + x2.drop_first());
    }
}

proof fn lemma_escape_byte_unique(a: u8, b: u8, t1: Seq<u8>, t2: Seq<u8>)
    requires
        escape_byte(a) + t1 == escape_byte(b) + t2,
    ensures
        a == b,
        t1 == t2,
{
    let s = escape_byte(a) + t1;
    let u = escape_byte(b) + t2;
    lemma_byte_digits(a);
    lemma_byte_digits(b);
    assert(s[0] == escape_byte(a)[0]);
    assert(u[0] == escape_byte(b)[0]);
    if a == 34 || a == 92 || a < 32 {
        assert(s[1] == escape_byte(a)[1]);
    }
    if b == 34 || b == 92 || b < 32 {
        assert(u[1] == escape_byte(b)[1]);
    }
    if a < 32 && b < 32 && a != 34 && a != 92 && b != 34 && b != 92 {
        assert(s[4] == escape_byte(a)[4] && s[5] == escape_byte(a)[5]);
        assert(u[4] == escape_byte(b)[4] && u[5] == escape_byte(b)[5]);
        lemma_hex_digit_unique(a / 16, b / 16);
        lemma_hex_digit_unique(a % 16, b % 16);
    }
    assert(a == b);
    lemma_drop_common(escape_byte(a), t1, t2);
}

proof fn lemma_escape_unique(x1: Seq<u8>, x2: Seq<u8>, r1: Seq<u8>, r2: Seq<u8>)
    requires
        escape(x1) + (seq![34u8] + r1) == escape(x2) + (seq![34u8] + r2),
    ensures
        x1 == x2,
        r1 == r2,
    decreases x1.len(),
{
    let s = escape(x1) + (seq![34u8] + r1);
    let u = escape(x2) + (seq![34u8] + r2);
    if x1.len() > 0 {
        lemma_escape_front(x1);
        assert(s[0] == escape_byte(x1[0])[0]);
        assert(escape_byte(x1[0])[0] != 34);
    }
    if x2.len() > 0 {
        lemma_escape_front(x2);
        assert(u[0] == escape_byte(x2[0])[0]);
        assert(escape_byte(x2[0])[0] != 34);
    }
    if x1.len() == 0 {
        assert(escape(x1) =~= Seq::<u8>::empty());
        assert(s[0] == 34);
        if x2.len() == 0 {
            assert(escape(x2) =~= Seq::<u8>::empty());
            assert(s =~= seq![34u8] + r1);
            assert(u =~= seq![34u8] + r2);
            lemma_drop_common(seq![34u8], r1, r2);
        }
    } else if x2.len() == 0 {
        assert(escape(x2) =~= Seq::<u8>::empty());
        assert(u[0] == 34);
    } else {
        let t1 = escape(x1.drop_first()) + (seq![34u8] + r1);
        let t2 = escape(x2.drop_first()) + (seq![34u8] + r2);
        assert(s =~= escape_byte(x1[0]) + t1);
        assert(u =~= escape_byte(x2[0]) + t2);
        lemma_escape_byte_unique(x1[0], x2[0], t1, t2);
        lemma_escape_unique(x1.drop_first(), x2.drop_first(), r1, r2);
        assert(x1 =~= seq![x1[0]] + x1.drop_first());
        assert(x2 =~= seq![x2[0]] + x2.drop_first());
    }
}

proof fn lemma_text_unique(c1: Seq<char>, c2: Seq<char>, r1: Seq<u8>, r2: Seq<u8>)
    requires
        text_json(c1) + r1 == text_json(c2) + r2,
    ensures
        c1 == c2,
        r1 == r2,
{
    let u1 = vstd::utf8::encode_utf8(c1);
    let u2 = vstd::utf8::encode_utf8(c2);
    assert(text_json(c1) + r1 =~= seq![34u8] + (escape(u1) + (seq![34u8] + r1)));
    assert(text_json(c2) + r2 =~= seq![34u8] + (escape(u2) + (seq![34u8] + r2)));
    lemma_drop_common(seq![34u8], escape(u1) + (seq![34u8] + r1), escape(u2) + (seq![34u8] + r2));
    lemma_escape_unique(u1, u2, r1, r2);
    vstd::utf8::encode_utf8_decode_utf8(c1);
    vstd::utf8::encode_utf8_decode_utf8(c2);
}

/// A non-empty list is its first item, then a comma and the rest if any.
proof fn lemma_join_head(items: Seq<Seq<u8>>)
    requires
        items.len() > 0,
    ensures
        join(items) == items[0] + (if items.len() == 1 {
            Seq::<u8>::empty()
        } else {
            seq![44u8] + join(items.drop_first())
        }),
{
    if items.len() == 1 {
        assert(join(items) == items[0]);
        assert(items[0] + Seq::<u8>::empty() =~= items[0]);
    } else {
        lemma_join_front(items);
        assert(items[0] + seq![44u8] + join(items.drop_first()) =~= items[0] + (seq![44u8] + join(items.drop_first())));
    }
}

proof fn lemma_ids_unique(k1: Seq<Seq<u8>>, k2: Seq<Seq<u8>>, r1: Seq<u8>, r2: Seq<u8>)
    requires
        join(id_items(k1)) + (seq![93u8] + r1) == join(id_items(k2)) + (seq![93u8] + r2),
    ensures
        k1 == k2,
        r1 == r2,
    decreases k1.len(),
{
    let i1 = id_items(k1);
    let i2 = id_items(k2);
    let s = join(i1) + (seq![93u8] + r1);
    let u = join(i2) + (seq![93u8] + r2);
    if k1.len() > 0 {
        lemma_join_head(i1);
        assert(s[0] == i1[0][0]);
        assert(i1[0][0] == 34);
    }
    if k2.len() > 0 {
        lemma_join_head(i2);
        assert(u[0] == i2[0][0]);
        assert(i2[0][0] == 34);
    }
    if k1.len() == 0 || k2.len() == 0 {
        if k1.len() == 0 {
            assert(join(i1) =~= Seq::<u8>::empty());
            assert(s =~= seq![93u8] + r1);
        }
        if k2.len() == 0 {
            assert(join(i2) =~= Seq::<u8>::empty());
            assert(u =~= seq![93u8] + r2);
        }
        if k1.len() == 0 && k2.len() == 0 {
            lemma_drop_common(seq![93u8], r1, r2);
            assert(k1 =~= k2);
        }
    } else {
        let tail1 = if k1.len() == 1 { Seq::<u8>::empty() } else { seq![44u8] + join(i1.drop_first()) };
        let tail2 = if k2.len() == 1 { Seq::<u8>::empty() } else { seq![44u8] + join(i2.drop_first()) };
        let x1 = tail1 + (seq![93u8] + r1);
        let x2 = tail2 + (seq![93u8] + r2);
        assert(s =~= seq![34u8] + (hex(k1[0]) + (seq![34u8] + x1)));
        assert(u =~= seq![34u8] + (hex(k2[0]) + (seq![34u8] + x2)));
        lemma_drop_common(seq![34u8], hex(k1[0]) + (seq![34u8] + x1), hex(k2[0]) + (seq![34u8] + x2));
        lemma_hex_unique(k1[0], k2[0], x1, x2);
        if k1.len() == 1 {
            assert(x1[0] == 93);
        } else {
            assert(x1[0] == 44);
        }
        if k2.len() == 1 {
            assert(x2[0] == 93);
        } else {
            assert(x2[0] == 44);
        }
        if k1.len() == 1 && k2.len() == 1 {
            assert(x1 =~= seq![93u8] + r1);
            assert(x2 =~= seq![93u8] + r2);
            lemma_drop_common(seq![93u8], r1, r2);
            assert(k1 =~= k2);
        } else if k1.len() > 1 && k2.len() > 1 {
            assert(i1.drop_first() =~= id_items(k1.drop_first()));
            assert(i2.drop_first() =~= id_items(k2.drop_first()));
            assert(x1 =~= seq![44u8] + (join(id_items(k1.drop_first())) + (seq![93u8] + r1)));
            assert(x2 =~= seq![44u8] + (join(id_items(k2.drop_first())) + (seq![93u8] + r2)));
            lemma_drop_common(seq![44u8], join(id_items(k1.drop_first())) + (seq![93u8] + r1), join(id_items(k2.drop_first())) + (seq![93u8] + r2));
            lemma_ids_unique(k1.drop_first(), k2.drop_first(), r1, r2);
            assert(k1 =~= seq![k1[0]] + k1.drop_first());
            assert(k2 =~= seq![k2[0]] + k2.drop_first());
        }
    }
}

proof fn lemma_seal_unique(a: SealView, b: SealView, t1: Seq<u8>, t2: Seq<u8>)
    requires
        seal_json(a) + t1 == seal_json(b) + t2,
    ensures
        a == b,
        t1 == t2,
{
    crate::codec::lemma_heads();
    let s = seal_json(a) + t1;
    match a {
        SealView::AttachedData(x) => {
            assert(s =~= data_head() + (text_json(x) + (seq![125u8] + t1)));
            assert(s[3] == data_head()[3]);
            match b {
                SealView::AttachedData(y) => {
                    assert(seal_json(b) + t2 =~= data_head() + (text_json(y) + (seq![125u8] + t2)));
                    lemma_drop_common(data_head(), text_json(x) + (seq![125u8] + t1), text_json(y) + (seq![125u8] + t2));
                    lemma_text_unique(x, y, seq![125u8] + t1, seq![125u8] + t2);
                    lemma_drop_common(seq![125u8], t1, t2);
                },
                SealView::Digest(y) => {
                    assert(seal_json(b) + t2 =~= digest_head() + (text_json(y) + (seq![125u8] + t2)));
                    assert((seal_json(b) + t2)[3] == digest_head()[3]);
                },
            }
        },
        SealView::Digest(x) => {
            assert(s =~= digest_head() + (text_json(x) + (seq![125u8] + t1)));
            assert(s[3] == digest_head()[3]);
            match b {
                SealView::AttachedData(y) => {
                    assert(seal_json(b) + t2 =~= data_head() + (text_json(y) + (seq![125u8] + t2)));
                    assert((seal_json(b) + t2)[3] == data_head()[3]);
                },
                SealView::Digest(y) => {
                    assert(seal_json(b) + t2 =~= digest_head() + (text_json(y) + (seq![125u8] + t2)));
                    lemma_drop_common(digest_head(), text_json(x) + (seq![125u8] + t1), text_json(y) + (seq![125u8] + t2));
                    lemma_text_unique(x, y, seq![125u8] + t1, seq![125u8] + t2);
                    lemma_drop_common(seq![125u8], t1, t2);
                },
            }
        },
    }
}

proof fn lemma_seals_unique(k1: Seq<SealView>, k2: Seq<SealView>, r1: Seq<u8>, r2: Seq<u8>)
    requires
        join(seal_items(k1)) + (seq![93u8] + r1) == join(seal_items(k2)) + (seq![93u8] + r2),
    ensures
        k1 == k2,
        r1 == r2,
    decreases k1.len(),
{
    let i1 = seal_items(k1);
    let i2 = seal_items(k2);
    let s = join(i1) + (seq![93u8] + r1);
    let u = join(i2) + (seq![93u8] + r2);
    if k1.len() > 0 {
        lemma_join_head(i1);
        assert(s[0] == i1[0][0]);
        crate::codec::lemma_heads();
        assert(i1[0][0] == 123);
    }
    if k2.len() > 0 {
        lemma_join_head(i2);
        assert(u[0] == i2[0][0]);
        crate::codec::lemma_heads();
        assert(i2[0][0] == 123);
    }
    if k1.len() == 0 || k2.len() == 0 {
        if k1.len() == 0 {
            assert(join(i1) =~= Seq::<u8>::empty());
            assert(s =~= seq![93u8] + r1);
        }
        if k2.len() == 0 {
            assert(join(i2) =~= Seq::<u8>::empty());
            assert(u =~= seq![93u8] + r2);
        }
        if k1.len() == 0 && k2.len() == 0 {
            lemma_drop_common(seq![93u8], r1, r2);
            assert(k1 =~= k2);
        }
    } else {
        let tail1 = if k1.len() == 1 { Seq::<u8>::empty() } else { seq![44u8] + join(i1.drop_first()) };
        let tail2 = if k2.len() == 1 { Seq::<u8>::empty() } else { seq![44u8] + join(i2.drop_first()) };
        let x1 = tail1 + (seq![93u8] + r1);
        let x2 = tail2 + (seq![93u8] + r2);
        assert(s =~= seal_json(k1[0]) + x1);
        assert(u =~= seal_json(k2[0]) + x2);
        lemma_seal_unique(k1[0], k2[0], x1, x2);
        if k1.len() == 1 {
            assert(x1[0] == 93);
        } else {
            assert(x1[0] == 44);
        }
        if k2.len() == 1 {
            assert(x2[0] == 93);
        } else {
            assert(x2[0] == 44);
        }
        if k1.len() == 1 && k2.len() == 1 {
            assert(x1 =~= seq![93u8] + r1);
            assert(x2 =~= seq![93u8] + r2);
            lemma_drop_common(seq![93u8], r1, r2);
            assert(k1 =~= k2);
        } else if k1.len() > 1 && k2.len() > 1 {
            assert(i1.drop_first() =~= seal_items(k1.drop_first()));
            assert(i2.drop_first() =~= seal_items(k2.drop_first()));
            assert(x1 =~= seq![44u8] + (join(seal_items(k1.drop_first())) + (seq![93u8] + r1)));
            assert(x2 =~= seq![44u8] + (join(seal_items(k2.drop_first())) + (seq![93u8] + r2)));
            lemma_drop_common(seq![44u8], join(seal_items(k1.drop_first())) + (seq![93u8] + r1), join(seal_items(k2.drop_first())) + (seq![93u8] + r2));
            lemma_seals_unique(k1.drop_first(), k2.drop_first(), r1, r2);
            assert(k1 =~= seq![k1[0]] + k1.drop_first());
            assert(k2 =~= seq![k2[0]] + k2.drop_first());
        }
    }
}

/// Two blocks with the same canonical bytes are the same block.
pub proof fn lemma_block_json_injective(a: BlockView, b: BlockView)
    requires
        block_json(a) == block_json(b),
    ensures
        a == b,
{
    crate::codec::lemma_heads();
    let g1 = join(seal_items(a.seals)) + block_tail();
    let g2 = join(seal_items(b.seals)) + block_tail();
    let e1 = seals_head() + g1;
    let e2 = seals_head() + g2;
    let d1 = join(id_items(a.controllers)) + e1;
    let d2 = join(id_items(b.controllers)) + e2;
    let c1 = controllers_head() + d1;
    let c2 = controllers_head() + d2;
    lemma_drop_common(prior_head(), quoted(hex(a.prior)) + c1, quoted(hex(b.prior)) + c2);
    assert(quoted(hex(a.prior)) + c1 =~= seq![34u8] + (hex(a.prior) + (seq![34u8] + c1)));
    assert(quoted(hex(b.prior)) + c2 =~= seq![34u8] + (hex(b.prior) + (seq![34u8] + c2)));
    lemma_drop_common(seq![34u8], hex(a.prior) + (seq![34u8] + c1), hex(b.prior) + (seq![34u8] + c2));
    lemma_hex_unique(a.prior, b.prior, c1, c2);
    lemma_drop_common(controllers_head(), d1, d2);
    let rest = seals_head().drop_first();
    assert(d1 =~= join(id_items(a.controllers)) + (seq![93u8] + (rest + g1)));
    assert(d2 =~= join(id_items(b.controllers)) + (seq![93u8] + (rest + g2)));
    lemma_ids_unique(a.controllers, b.controllers, rest + g1, rest + g2);
    lemma_drop_common(rest, g1, g2);
    assert(g1 =~= join(seal_items(a.seals)) + (seq![93u8] + seq![125u8]));
    assert(g2 =~= join(seal_items(b.seals)) + (seq![93u8] + seq![125u8]));
    lemma_seals_unique(a.seals, b.seals, seq![125u8], seq![125u8]);
}

} // verus!
