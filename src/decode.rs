//! Reading canonical block bytes back. The reader accepts exactly the bytes
//! that the encoder writes: each value has one encoding.
use crate::block::{Block, BlockView, NontransferableIdentifier};
use crate::codec::{
    block_json, block_tail, controllers_head, data_head, digest_head, escape, escape_byte, hex,
    hex_digit, id_items, join, lemma_join_push, prior_head, quoted, seal_items, seal_json,
    seals_head, text_json,
};
use crate::error::Error;
use crate::seal::{SealBundle, SealData, SealView};
use vstd::prelude::*;

verus! {

broadcast use vstd::seq::group_seq_axioms;

/// `x` stands in `buf` from `pos` on.
pub open spec fn prefix_at(buf: Seq<u8>, pos: int, x: Seq<u8>) -> bool {
    0 <= pos && pos + x.len() <= buf.len() && buf.subrange(pos, pos + x.len()) == x
}

proof fn lemma_prefix_split(buf: Seq<u8>, pos: int, a: Seq<u8>, b: Seq<u8>)
    requires
        prefix_at(buf, pos, a + b),
    ensures
        prefix_at(buf, pos, a),
        prefix_at(buf, pos + a.len(), b),
        a.len() > 0 ==> buf[pos] == a[0],
{
    let w = buf.subrange(pos, pos + (a + b).len());
    assert(w == a + b);
    assert(buf.subrange(pos, pos + a.len()) =~= w.subrange(0, a.len() as int));
    assert(w.subrange(0, a.len() as int) =~= a);
    assert(buf.subrange(pos + a.len(), pos + a.len() + b.len()) =~= w.subrange(
        a.len() as int,
        w.len() as int,
    ));
    assert(w.subrange(a.len() as int, w.len() as int) =~= b);
    if a.len() > 0 {
        assert(buf.subrange(pos, pos + a.len())[0] == buf[pos]);
    }
}

proof fn lemma_hex_append(a: Seq<u8>, b: Seq<u8>)
    ensures
        hex(a + b) == hex(a) + hex(b),
    decreases b.len(),
{
    if b.len() == 0 {
        assert(a + b =~= a);
    } else {
        assert((a + b).drop_last() =~= a + b.drop_last());
        lemma_hex_append(a, b.drop_last());
    }
}

pub(crate) proof fn lemma_hex_front(s: Seq<u8>)
    requires
        s.len() > 0,
    ensures
        hex(s) == seq![hex_digit(s[0] / 16), hex_digit(s[0] % 16)] + hex(s.drop_first()),
{
    assert(s =~= seq![s[0]] + s.drop_first());
    lemma_hex_append(seq![s[0]], s.drop_first());
    assert(seq![s[0]].drop_last() =~= Seq::<u8>::empty());
    assert(hex(Seq::<u8>::empty()) == Seq::<u8>::empty());
    assert(hex(seq![s[0]]) =~= seq![hex_digit(s[0] / 16), hex_digit(s[0] % 16)]);
}

pub(crate) proof fn lemma_escape_append(a: Seq<u8>, b: Seq<u8>)
    ensures
        escape(a + b) == escape(a) + escape(b),
    decreases b.len(),
{
    if b.len() == 0 {
        assert(a + b =~= a);
    } else {
        assert((a + b).drop_last() =~= a + b.drop_last());
        lemma_escape_append(a, b.drop_last());
    }
}

pub(crate) proof fn lemma_escape_front(s: Seq<u8>)
    requires
        s.len() > 0,
    ensures
        escape(s) == escape_byte(s[0]) + escape(s.drop_first()),
{
    assert(s =~= seq![s[0]] + s.drop_first());
    lemma_escape_append(seq![s[0]], s.drop_first());
    assert(seq![s[0]].drop_last() =~= Seq::<u8>::empty());
    assert(escape(Seq::<u8>::empty()) == Seq::<u8>::empty());
    assert(escape(seq![s[0]]) =~= escape_byte(s[0]));
}

fn hex_value(c: u8) -> (r: Option<u8>)
    ensures
        r matches Some(n) ==> n < 16 && hex_digit(n) == c,
        forall|n: u8| n < 16 && hex_digit(n) == c ==> r == Some(n),
{
    if 48 <= c && c <= 57 {
        Some(c - 48)
    } else if 97 <= c && c <= 102 {
        Some(c - 87)
    } else {
        None
    }
}

pub(crate) proof fn lemma_byte_digits(b: u8)
    ensures
        b / 16 < 16,
        b % 16 < 16,
        (b / 16) * 16 + b % 16 == b,
{
}

/// Whether `lit` stands in `buf` from `pos` on.
fn has_at(buf: &[u8], pos: usize, lit: &[u8]) -> (r: bool)
    ensures
        r == prefix_at(buf@, pos as int, lit@),
{
    if pos > buf.len() || lit.len() > buf.len() - pos {
        return false;
    }
    let n = buf.len();
    let mut i: usize = 0;
    while i < lit.len()
        invariant
            n == buf@.len(),
            pos + lit@.len() <= n,
            i <= lit@.len(),
            buf@.subrange(pos as int, pos + i) == lit@.subrange(0, i as int),
        decreases lit@.len() - i,
    {
        if buf[pos + i] != lit[i] {
            assert(buf@.subrange(pos as int, pos + lit@.len())[i as int] != lit@[i as int]);
            return false;
        }
        assert(buf@.subrange(pos as int, pos + i + 1) =~= buf@.subrange(pos as int, pos + i).push(buf@[pos + i]));
        assert(lit@.subrange(0, i + 1) =~= lit@.subrange(0, i as int).push(lit@[i as int]));
        i = i + 1;
    }
    assert(lit@ =~= lit@.subrange(0, i as int));
    true
}

/// Reads a quoted hex string at `pos`. If `target` is given and its
/// encoding stands at `pos`, that is what is read.
fn read_hex(buf: &[u8], pos: usize, Ghost(target): Ghost<Option<Seq<u8>>>) -> (r: Option<(Vec<u8>, usize)>)
    requires
        pos <= buf@.len(),
        target matches Some(x) ==> prefix_at(buf@, pos as int, quoted(hex(x))),
    ensures
        r matches Some((v, e)) ==> pos <= e <= buf@.len() && buf@.subrange(pos as int, e as int) == quoted(hex(v@)),
        target matches Some(x) ==> (r matches Some((v, e)) && v@ == x),
{
    if pos >= buf.len() || buf[pos] != 34 {
        proof {
            if let Some(x) = target {
                assert(quoted(hex(x)) =~= seq![34u8] + (hex(x) + seq![34u8]));
                lemma_prefix_split(buf@, pos as int, seq![34u8], hex(x) + seq![34u8]);
            }
        }
        return None;
    }
    proof {
        if let Some(x) = target {
            assert(quoted(hex(x)) =~= seq![34u8] + (hex(x) + seq![34u8]));
            lemma_prefix_split(buf@, pos as int, seq![34u8], hex(x) + seq![34u8]);
            assert(x.skip(0) =~= x);
        }
    }
    let mut out: Vec<u8> = Vec::new();
    let mut p: usize = pos + 1;
    loop
        invariant
            pos < p <= buf@.len(),
            buf@[pos as int] == 34,
            buf@.subrange(pos + 1, p as int) == hex(out@),
            target matches Some(x) ==> out@.len() <= x.len() && out@ == x.take(out@.len() as int)
                && prefix_at(buf@, p as int, hex(x.skip(out@.len() as int)) + seq![34u8]),
        decreases buf@.len() - p,
    {
        let ghost k = out@.len() as int;
        proof {
            if let Some(x) = target {
                if k < x.len() {
                    lemma_hex_front(x.skip(k));
                    assert(x.skip(k).drop_first() =~= x.skip(k + 1));
                    assert(hex(x.skip(k)) + seq![34u8] =~= seq![hex_digit(x[k] / 16), hex_digit(x[k] % 16)] + (hex(x.skip(k + 1)) + seq![34u8]));
                    lemma_prefix_split(buf@, p as int, seq![hex_digit(x[k] / 16), hex_digit(x[k] % 16)], hex(x.skip(k + 1)) + seq![34u8]);
                    assert(seq![hex_digit(x[k] / 16), hex_digit(x[k] % 16)] + (hex(x.skip(k + 1)) + seq![34u8]) =~= seq![hex_digit(x[k] / 16)] + (seq![hex_digit(x[k] % 16)] + (hex(x.skip(k + 1)) + seq![34u8])));
                    lemma_prefix_split(buf@, p as int, seq![hex_digit(x[k] / 16)], seq![hex_digit(x[k] % 16)] + (hex(x.skip(k + 1)) + seq![34u8]));
                    lemma_prefix_split(buf@, p + 1, seq![hex_digit(x[k] % 16)], hex(x.skip(k + 1)) + seq![34u8]);
                    lemma_byte_digits(x[k]);
                } else {
                    assert(x.skip(k) =~= Seq::<u8>::empty());
                    assert(hex(x.skip(k)) + seq![34u8] =~= seq![34u8]);
                    lemma_prefix_split(buf@, p as int, seq![34u8], Seq::<u8>::empty());
                }
            }
        }
        if p >= buf.len() {
            return None;
        }
        if buf[p] == 34 {
            proof {
                assert(buf@.subrange(pos as int, p + 1) =~= quoted(buf@.subrange(pos + 1, p as int)));
                if let Some(x) = target {
                    assert(out@ =~= x);
                }
            }
            return Some((out, p + 1));
        }
        if p + 1 >= buf.len() {
            return None;
        }
        let hi = match hex_value(buf[p]) {
            Some(n) => n,
            None => return None,
        };
        let lo = match hex_value(buf[p + 1]) {
            Some(n) => n,
            None => return None,
        };
        let b: u8 = hi * 16 + lo;
        assert(b / 16 == hi && b % 16 == lo) by (nonlinear_arith)
            requires hi < 16, lo < 16, b == hi * 16 + lo;
        let ghost old_out = out@;
        out.push(b);
        proof {
            assert(out@.drop_last() =~= old_out);
            assert(buf@.subrange(pos + 1, p + 2) =~= buf@.subrange(pos + 1, p as int) + seq![buf@[p as int], buf@[p + 1]]);
            if let Some(x) = target {
                assert(x[k] == b);
                assert(out@ =~= x.take(k + 1));
            }
        }
        p = p + 2;
    }
}

proof fn lemma_prefix_index(buf: Seq<u8>, pos: int, x: Seq<u8>)
    requires
        prefix_at(buf, pos, x),
    ensures
        forall|j: int| 0 <= j < x.len() ==> buf[pos + j] == #[trigger] x[j],
{
    assert forall|j: int| 0 <= j < x.len() implies buf[pos + j] == #[trigger] x[j] by {
        assert(buf.subrange(pos, pos + x.len())[j] == buf[pos + j]);
    }
}

/// Reads a quoted, escaped byte string at `pos`. If `target` is given and
/// its encoding stands at `pos`, that is what is read.
fn read_escaped(buf: &[u8], pos: usize, Ghost(target): Ghost<Option<Seq<u8>>>) -> (r: Option<(Vec<u8>, usize)>)
    requires
        pos <= buf@.len(),
        target matches Some(x) ==> prefix_at(buf@, pos as int, quoted(escape(x))),
    ensures
        r matches Some((v, e)) ==> pos <= e <= buf@.len() && buf@.subrange(pos as int, e as int) == quoted(escape(v@)),
        target matches Some(x) ==> (r matches Some((v, e)) && v@ == x),
{
    proof {
        if let Some(x) = target {
            assert(quoted(escape(x)) =~= seq![34u8] + (escape(x) + seq![34u8]));
            lemma_prefix_split(buf@, pos as int, seq![34u8], escape(x) + seq![34u8]);
            assert(x.skip(0) =~= x);
        }
    }
    if pos >= buf.len() || buf[pos] != 34 {
        return None;
    }
    let n = buf.len();
    let mut out: Vec<u8> = Vec::new();
    let mut p: usize = pos + 1;
    loop
        invariant
            n == buf@.len(),
            pos < p <= n,
            buf@[pos as int] == 34,
            buf@.subrange(pos + 1, p as int) == escape(out@),
            target matches Some(x) ==> out@.len() <= x.len() && out@ == x.take(out@.len() as int)
                && prefix_at(buf@, p as int, escape(x.skip(out@.len() as int)) + seq![34u8]),
        decreases n - p,
    {
        let ghost k = out@.len() as int;
        proof {
            if let Some(x) = target {
                if k < x.len() {
                    lemma_escape_front(x.skip(k));
                    assert(x.skip(k).drop_first() =~= x.skip(k + 1));
                    assert(escape(x.skip(k)) + seq![34u8] =~= escape_byte(x[k]) + (escape(x.skip(k + 1)) + seq![34u8]));
                    lemma_prefix_split(buf@, p as int, escape_byte(x[k]), escape(x.skip(k + 1)) + seq![34u8]);
                    lemma_prefix_index(buf@, p as int, escape_byte(x[k]));
                    lemma_byte_digits(x[k]);
                    assert(escape_byte(x[k])[0] == if x[k] == 34 || x[k] == 92 || x[k] < 32 {
                        92u8
                    } else {
                        x[k]
                    });
                    assert(buf@[p as int] == escape_byte(x[k])[0]);
                    if x[k] == 34 || x[k] == 92 {
                        assert(escape_byte(x[k])[1] == x[k]);
                        assert(buf@[p + 1] == escape_byte(x[k])[1]);
                    } else if x[k] < 32 {
                        assert(escape_byte(x[k])[1] == 117);
                        assert(buf@[p + 1] == escape_byte(x[k])[1]);
                        assert(buf@[p + 2] == escape_byte(x[k])[2]);
                        assert(buf@[p + 3] == escape_byte(x[k])[3]);
                        assert(buf@[p + 4] == escape_byte(x[k])[4]);
                        assert(buf@[p + 5] == escape_byte(x[k])[5]);
                    }
                } else {
                    assert(x.skip(k) =~= Seq::<u8>::empty());
                    assert(escape(x.skip(k)) + seq![34u8] =~= seq![34u8]);
                    lemma_prefix_index(buf@, p as int, seq![34u8]);
                    assert(buf@[p + 0] == seq![34u8][0]);
                }
            }
        }
        if p >= n {
            return None;
        }
        let c = buf[p];
        if c == 34 {
            proof {
                assert(buf@.subrange(pos as int, p + 1) =~= quoted(buf@.subrange(pos + 1, p as int)));
                if let Some(x) = target {
                    assert(out@ =~= x);
                }
            }
            return Some((out, p + 1));
        }
        let b: u8;
        let w: usize;
        if c == 92 {
            proof {
                if let Some(x) = target {
                    if k < x.len() {
                        assert(escape_byte(x[k]).len() >= 2);
                    }
                }
            }
            if p + 1 >= n {
                return None;
            }
            let d = buf[p + 1];
            if d == 34 || d == 92 {
                b = d;
                w = 2;
            } else if d == 117 {
                if n - p <= 5 || buf[p + 2] != 48 || buf[p + 3] != 48 {
                    return None;
                }
                let hi = match hex_value(buf[p + 4]) {
                    Some(v) => v,
                    None => return None,
                };
                let lo = match hex_value(buf[p + 5]) {
                    Some(v) => v,
                    None => return None,
                };
                if hi > 1 {
                    return None;
                }
                b = hi * 16 + lo;
                assert(b / 16 == hi && b % 16 == lo) by (nonlinear_arith)
                    requires hi < 16, lo < 16, b == hi * 16 + lo;
                w = 6;
            } else {
                return None;
            }
        } else if c < 32 {
            return None;
        } else {
            b = c;
            w = 1;
        }
        proof {
            assert(escape_byte(b).len() == w);
            assert(buf@.subrange(p as int, p + w) =~= escape_byte(b));
            if let Some(x) = target {
                if k < x.len() {
                    assert(x[k] == b);
                }
            }
        }
        let ghost old_out = out@;
        out.push(b);
        proof {
            assert(out@.drop_last() =~= old_out);
            assert(buf@.subrange(pos + 1, p + w) =~= buf@.subrange(pos + 1, p as int) + buf@.subrange(p as int, p + w));
            if let Some(x) = target {
                assert(out@ =~= x.take(k + 1));
            }
        }
        p = p + w;
    }
}

/// Relies on `String::from_utf8`: the bytes become a string exactly when they
/// are valid UTF-8, and the string holds the characters that they encode.
#[verifier::external_body]
pub(crate) fn string_from_utf8(b: Vec<u8>) -> (r: Option<String>)
    ensures
        r is Some <==> vstd::utf8::valid_utf8(b@),
        r matches Some(s) ==> s@ == vstd::utf8::decode_utf8(b@),
{
    String::from_utf8(b).ok()
}

/// Reads a JSON string of text at `pos`.
fn read_text(buf: &[u8], pos: usize, Ghost(target): Ghost<Option<Seq<char>>>) -> (r: Option<(String, usize)>)
    requires
        pos <= buf@.len(),
        target matches Some(cs) ==> prefix_at(buf@, pos as int, text_json(cs)),
    ensures
        r matches Some((s, e)) ==> pos <= e <= buf@.len() && buf@.subrange(pos as int, e as int) == text_json(s@),
        target matches Some(cs) ==> (r matches Some((s, e)) && s@ == cs),
{
    let ghost raw_target = match target {
        Some(cs) => Some(vstd::utf8::encode_utf8(cs)),
        None => None,
    };
    match read_escaped(buf, pos, Ghost(raw_target)) {
        None => None,
        Some((raw, e)) => {
            let ghost rv = raw@;
            match string_from_utf8(raw) {
                None => {
                    proof {
                        if let Some(cs) = target {
                            vstd::utf8::encode_utf8_valid_utf8(cs);
                        }
                    }
                    None
                },
                Some(s) => {
                    proof {
                        vstd::utf8::decode_utf8_encode_utf8(rv);
                        if let Some(cs) = target {
                            vstd::utf8::encode_utf8_decode_utf8(cs);
                        }
                    }
                    Some((s, e))
                },
            }
        },
    }
}

/// What of a list is left to read once `k` items have been read.
pub open spec fn list_rest(items: Seq<Seq<u8>>, k: int) -> Seq<u8> {
    if k >= items.len() {
        Seq::empty()
    } else if k == 0 {
        join(items)
    } else {
        seq![44u8] + join(items.skip(k))
    }
}

pub(crate) proof fn lemma_join_front(items: Seq<Seq<u8>>)
    requires
        items.len() >= 2,
    ensures
        join(items) == items[0] + seq![44u8] + join(items.drop_first()),
    decreases items.len(),
{
    if items.len() == 2 {
        assert(items.drop_last() =~= seq![items[0]]);
        assert(items.drop_first() =~= seq![items[1]]);
        assert(join(seq![items[0]]) == items[0]);
        assert(join(seq![items[1]]) == items[1]);
    } else {
        let dl = items.drop_last();
        let df = items.drop_first();
        lemma_join_front(dl);
        assert(dl.drop_first() =~= df.drop_last());
        assert(dl[0] == items[0]);
        assert(df.last() == items.last());
        assert(join(items) == join(dl) + seq![44u8] + items.last());
        assert(join(df) == join(df.drop_last()) + seq![44u8] + df.last());
        assert(join(items) =~= items[0] + seq![44u8] + join(df));
    }
}

proof fn lemma_list_rest_step(items: Seq<Seq<u8>>, k: int)
    requires
        0 <= k < items.len(),
    ensures
        list_rest(items, k) == (if k == 0 {
            Seq::<u8>::empty()
        } else {
            seq![44u8]
        }) + items[k] + list_rest(items, k + 1),
{
    let t = items.skip(k);
    if t.len() == 1 {
        assert(list_rest(items, k + 1) =~= Seq::<u8>::empty());
        if k == 0 {
            assert(items =~= t);
        }
        assert(join(t) == t[0]);
    } else {
        lemma_join_front(t);
        assert(t.drop_first() =~= items.skip(k + 1));
        if k == 0 {
            assert(items =~= t);
        }
    }
    if k == 0 {
        assert(Seq::<u8>::empty() + items[k] + list_rest(items, k + 1) =~= items[k] + list_rest(items, k + 1));
    }
}

proof fn lemma_id_items_push(ids: Seq<Seq<u8>>, k: Seq<u8>)
    ensures
        id_items(ids.push(k)) == id_items(ids).push(quoted(hex(k))),
{
    assert(id_items(ids.push(k)) =~= id_items(ids).push(quoted(hex(k))));
}

proof fn lemma_seal_items_push(seals: Seq<SealView>, s: SealView)
    ensures
        seal_items(seals.push(s)) == seal_items(seals).push(seal_json(s)),
{
    assert(seal_items(seals.push(s)) =~= seal_items(seals).push(seal_json(s)));
}

/// Reads the comma-separated keys of a controller list, up to its `]`.
#[verifier::rlimit(40)]
fn read_controllers(buf: &[u8], pos: usize, Ghost(target): Ghost<Option<Seq<Seq<u8>>>>) -> (r: Option<(Vec<NontransferableIdentifier>, usize)>)
    requires
        pos <= buf@.len(),
        target matches Some(ks) ==> prefix_at(buf@, pos as int, join(id_items(ks)) + seq![93u8]),
    ensures
        r matches Some((v, e)) ==> pos <= e < buf@.len() && buf@[e as int] == 93 && buf@.subrange(pos as int, e as int)
            == join(id_items(v@.map_values(|i: NontransferableIdentifier| i@))),
        target matches Some(ks) ==> (r matches Some((v, e)) && v@.map_values(|i: NontransferableIdentifier| i@) == ks),
{
    let n = buf.len();
    let mut out: Vec<NontransferableIdentifier> = Vec::new();
    let mut p: usize = pos;
    proof {
        if let Some(ks) = target {
            assert(ks.take(0) =~= Seq::<Seq<u8>>::empty());
            if ks.len() > 0 {
                assert(list_rest(id_items(ks), 0) == join(id_items(ks)));
            } else {
                assert(id_items(ks) =~= Seq::<Seq<u8>>::empty());
            }
        }
        assert(out@.map_values(|i: NontransferableIdentifier| i@) =~= Seq::<Seq<u8>>::empty());
        assert(buf@.subrange(pos as int, pos as int) =~= join(id_items(Seq::<Seq<u8>>::empty())));
    }
    loop
        invariant
            n == buf@.len(),
            pos <= p <= n,
            buf@.subrange(pos as int, p as int) == join(id_items(out@.map_values(|i: NontransferableIdentifier| i@))),
            target matches Some(ks) ==> out@.len() <= ks.len() && out@.map_values(|i: NontransferableIdentifier| i@)
                == ks.take(out@.len() as int) && prefix_at(buf@, p as int, list_rest(id_items(ks), out@.len() as int) + seq![93u8]),
        decreases n - p,
    {
        let ghost got = out@.map_values(|i: NontransferableIdentifier| i@);
        let ghost k = out@.len() as int;
        proof {
            if let Some(ks) = target {
                if k < ks.len() {
                    lemma_list_rest_step(id_items(ks), k);
                    let head = if k == 0 { Seq::<u8>::empty() } else { seq![44u8] };
                    assert(list_rest(id_items(ks), k) + seq![93u8] =~= head + (quoted(hex(ks[k])) + (list_rest(id_items(ks), k + 1) + seq![93u8])));
                    lemma_prefix_split(buf@, p as int, head, quoted(hex(ks[k])) + (list_rest(id_items(ks), k + 1) + seq![93u8]));
                    lemma_prefix_split(buf@, p + head.len(), quoted(hex(ks[k])), list_rest(id_items(ks), k + 1) + seq![93u8]);
                    lemma_prefix_index(buf@, p + head.len(), quoted(hex(ks[k])));
                    lemma_prefix_index(buf@, p as int, head);
                    assert(quoted(hex(ks[k]))[0] == 34);
                    if k == 0 {
                        assert(buf@[p as int] == 34);
                    } else {
                        assert(buf@[p as int] == head[0]);
                    }
                } else {
                    assert(list_rest(id_items(ks), k) + seq![93u8] =~= seq![93u8]);
                    lemma_prefix_index(buf@, p as int, seq![93u8]);
                    assert(buf@[p + 0] == seq![93u8][0]);
                    assert(got =~= ks);
                }
            }
        }
        if p >= n {
            return None;
        }
        if buf[p] == 93 {
            return Some((out, p));
        }
        let mut q = p;
        if out.len() > 0 {
            if buf[p] != 44 {
                return None;
            }
            q = p + 1;
        }
        let ghost t = match target {
            Some(ks) => Some(ks[k]),
            None => None,
        };
        match read_hex(buf, q, Ghost(t)) {
            None => return None,
            Some((key, e)) => {
                let ghost kv = key@;
                out.push(NontransferableIdentifier(key));
                proof {
                    assert(out@.map_values(|i: NontransferableIdentifier| i@) =~= got.push(kv));
                    lemma_id_items_push(got, kv);
                    lemma_join_push(id_items(got), quoted(hex(kv)));
                    if k == 0 {
                        assert(id_items(got) =~= Seq::<Seq<u8>>::empty());
                        assert(buf@.subrange(pos as int, e as int) =~= quoted(hex(kv)));
                    } else {
                        assert(buf@.subrange(pos as int, e as int) =~= buf@.subrange(pos as int, p as int) + seq![44u8] + buf@.subrange(q as int, e as int));
                    }
                    if let Some(ks) = target {
                        assert(got.push(kv) =~= ks.take(k + 1));
                    }
                }
                p = e;
            },
        }
    }
}

/// Reads the comma-separated seals of a seal list, up to its `]`.
#[verifier::rlimit(40)]
fn read_seals(buf: &[u8], pos: usize, Ghost(target): Ghost<Option<Seq<SealView>>>) -> (r: Option<(Vec<SealData>, usize)>)
    requires
        pos <= buf@.len(),
        target matches Some(ks) ==> prefix_at(buf@, pos as int, join(seal_items(ks)) + seq![93u8]),
    ensures
        r matches Some((v, e)) ==> pos <= e < buf@.len() && buf@[e as int] == 93 && buf@.subrange(pos as int, e as int)
            == join(seal_items(v@.map_values(|i: SealData| i@))),
        target matches Some(ks) ==> (r matches Some((v, e)) && v@.map_values(|i: SealData| i@) == ks),
{
    let n = buf.len();
    let mut out: Vec<SealData> = Vec::new();
    let mut p: usize = pos;
    proof {
        if let Some(ks) = target {
            assert(ks.take(0) =~= Seq::<SealView>::empty());
            if ks.len() > 0 {
                assert(list_rest(seal_items(ks), 0) == join(seal_items(ks)));
            } else {
                assert(seal_items(ks) =~= Seq::<Seq<u8>>::empty());
            }
        }
        assert(out@.map_values(|i: SealData| i@) =~= Seq::<SealView>::empty());
        assert(buf@.subrange(pos as int, pos as int) =~= join(seal_items(Seq::<SealView>::empty())));
    }
    loop
        invariant
            n == buf@.len(),
            pos <= p <= n,
            buf@.subrange(pos as int, p as int) == join(seal_items(out@.map_values(|i: SealData| i@))),
            target matches Some(ks) ==> out@.len() <= ks.len() && out@.map_values(|i: SealData| i@)
                == ks.take(out@.len() as int) && prefix_at(buf@, p as int, list_rest(seal_items(ks), out@.len() as int) + seq![93u8]),
        decreases n - p,
    {
        let ghost got = out@.map_values(|i: SealData| i@);
        let ghost k = out@.len() as int;
        proof {
            if let Some(ks) = target {
                if k < ks.len() {
                    lemma_list_rest_step(seal_items(ks), k);
                    let head = if k == 0 { Seq::<u8>::empty() } else { seq![44u8] };
                    assert(list_rest(seal_items(ks), k) + seq![93u8] =~= head + (seal_json(ks[k]) + (list_rest(seal_items(ks), k + 1) + seq![93u8])));
                    lemma_prefix_split(buf@, p as int, head, seal_json(ks[k]) + (list_rest(seal_items(ks), k + 1) + seq![93u8]));
                    lemma_prefix_split(buf@, p + head.len(), seal_json(ks[k]), list_rest(seal_items(ks), k + 1) + seq![93u8]);
                    lemma_prefix_index(buf@, p + head.len(), seal_json(ks[k]));
                    lemma_prefix_index(buf@, p as int, head);
                    crate::codec::lemma_heads();
                    assert(seal_json(ks[k])[0] == 123);
                    if k == 0 {
                        assert(buf@[p as int] == 123);
                    } else {
                        assert(buf@[p as int] == head[0]);
                    }
                } else {
                    assert(list_rest(seal_items(ks), k) + seq![93u8] =~= seq![93u8]);
                    lemma_prefix_index(buf@, p as int, seq![93u8]);
                    assert(buf@[p + 0] == seq![93u8][0]);
                    assert(got =~= ks);
                }
            }
        }
        if p >= n {
            return None;
        }
        if buf[p] == 93 {
            return Some((out, p));
        }
        let mut q = p;
        if out.len() > 0 {
            if buf[p] != 44 {
                return None;
            }
            q = p + 1;
        }
        let ghost t = match target {
            Some(ks) => Some(ks[k]),
            None => None,
        };
        match read_seal(buf, q, Ghost(t)) {
            None => return None,
            Some((key, e)) => {
                let ghost kv = key@;
                out.push(key);
                proof {
                    assert(out@.map_values(|i: SealData| i@) =~= got.push(kv));
                    lemma_seal_items_push(got, kv);
                    lemma_join_push(seal_items(got), seal_json(kv));
                    if k == 0 {
                        assert(seal_items(got) =~= Seq::<Seq<u8>>::empty());
                        assert(buf@.subrange(pos as int, e as int) =~= seal_json(kv));
                    } else {
                        assert(buf@.subrange(pos as int, e as int) =~= buf@.subrange(pos as int, p as int) + seq![44u8] + buf@.subrange(q as int, e as int));
                    }
                    if let Some(ks) = target {
                        assert(got.push(kv) =~= ks.take(k + 1));
                    }
                }
                p = e;
            },
        }
    }
}

/// Reads one seal object.
fn read_seal(buf: &[u8], pos: usize, Ghost(target): Ghost<Option<SealView>>) -> (r: Option<(SealData, usize)>)
    requires
        pos <= buf@.len(),
        target matches Some(t) ==> prefix_at(buf@, pos as int, seal_json(t)),
    ensures
        r matches Some((s, e)) ==> pos <= e <= buf@.len() && buf@.subrange(pos as int, e as int) == seal_json(s@),
        target matches Some(t) ==> (r matches Some((s, e)) && s@ == t),
{
    proof {
        crate::codec::lemma_heads();
    }
    let ghost ttext: Option<Seq<char>> = match target {
        Some(SealView::AttachedData(x)) => Some(x),
        Some(SealView::Digest(x)) => Some(x),
        None => None,
    };
    proof {
        if let Some(t) = target {
            match t {
                SealView::AttachedData(x) => {
                    assert(data_head() + text_json(x) + seq![125u8] =~= data_head() + (text_json(x) + seq![125u8]));
                    lemma_prefix_split(buf@, pos as int, data_head(), text_json(x) + seq![125u8]);
                    lemma_prefix_split(buf@, pos + 8, text_json(x), seq![125u8]);
                    lemma_prefix_index(buf@, pos + 8 + text_json(x).len(), seq![125u8]);
                    assert(data_head() + text_json(x) + seq![125u8] =~= data_head() + (text_json(x) + seq![125u8]));
                },
                SealView::Digest(x) => {
                    assert(digest_head() + text_json(x) + seq![125u8] =~= digest_head() + (text_json(x) + seq![125u8]));
                    lemma_prefix_split(buf@, pos as int, digest_head(), text_json(x) + seq![125u8]);
                    lemma_prefix_split(buf@, pos + 10, text_json(x), seq![125u8]);
                    lemma_prefix_index(buf@, pos + 10 + text_json(x).len(), seq![125u8]);
                    lemma_prefix_index(buf@, pos as int, digest_head());
                    assert(buf@[pos + 3] == digest_head()[3]);
                    if prefix_at(buf@, pos as int, data_head()) {
                        lemma_prefix_index(buf@, pos as int, data_head());
                        assert(buf@[pos + 3] == data_head()[3]);
                    }
                },
            }
        }
    }
    let dh: [u8; 8] = [123u8, 34, 100, 97, 116, 97, 34, 58];
    let gh: [u8; 10] = [123u8, 34, 100, 105, 103, 101, 115, 116, 34, 58];
    assert(dh@ =~= data_head()) by {
        reveal(data_head);
    }
    assert(gh@ =~= digest_head()) by {
        reveal(digest_head);
    }
    let n = buf.len();
    let attached = has_at(buf, pos, &dh);
    let body_at: usize;
    if attached {
        assert(pos + 8 <= n);
        body_at = pos + 8;
    } else if has_at(buf, pos, &gh) {
        assert(pos + 10 <= n);
        body_at = pos + 10;
    } else {
        return None;
    }
    match read_text(buf, body_at, Ghost(ttext)) {
        None => None,
        Some((text, e)) => {
            proof {
                if let Some(x) = ttext {
                    assert(buf@.subrange(body_at as int, e as int).len() == e - body_at);
                    assert(e == body_at + text_json(x).len());
                    assert(buf@[e + 0] == seq![125u8][0]);
                }
            }
            if e >= buf.len() || buf[e] != 125 {
                return None;
            }
            let s = if attached {
                SealData::AttachedData(text)
            } else {
                SealData::Digest(text)
            };
            proof {
                assert(buf@.subrange(pos as int, e + 1) =~= buf@.subrange(pos as int, body_at as int) + buf@.subrange(body_at as int, e as int) + seq![125u8]);
            }
            Some((s, e + 1))
        },
    }
}

#[verifier::rlimit(60)]
proof fn lemma_block_layout(buf: Seq<u8>, pos: int, v: BlockView)
    requires
        prefix_at(buf, pos, block_json(v)),
    ensures
        ({
            let after_prior: int = pos + 9 + quoted(hex(v.prior)).len() as int;
            let ids_at: int = after_prior + 16;
            let after_ids: int = ids_at + join(id_items(v.controllers)).len() as int;
            let seals_at: int = after_ids + 11;
            let after_seals: int = seals_at + join(seal_items(v.seals)).len() as int;
            &&& prefix_at(buf, pos, prior_head())
            &&& prefix_at(buf, pos + 9, quoted(hex(v.prior)))
            &&& prefix_at(buf, after_prior, controllers_head())
            &&& prefix_at(buf, ids_at, join(id_items(v.controllers)) + seq![93u8])
            &&& prefix_at(buf, after_ids, seals_head())
            &&& prefix_at(buf, seals_at, join(seal_items(v.seals)) + seq![93u8])
            &&& prefix_at(buf, after_seals, block_tail())
            &&& block_json(v).len() == after_seals + 2 - pos
        }),
{
    crate::codec::lemma_heads();
    let a = prior_head();
    let b = quoted(hex(v.prior));
    let c = controllers_head();
    let d = join(id_items(v.controllers));
    let e = seals_head();
    let f = join(seal_items(v.seals));
    let g = block_tail();
    assert(prefix_at(buf, pos, a + (b + (c + (d + (e + (f + g)))))));
    lemma_prefix_split(buf, pos, a, b + (c + (d + (e + (f + g)))));
    lemma_prefix_split(buf, pos + 9, b, c + (d + (e + (f + g))));
    let after_prior: int = pos + 9 + b.len() as int;
    let ids_at: int = after_prior + 16;
    lemma_prefix_split(buf, after_prior, c, d + (e + (f + g)));
    lemma_prefix_split(buf, ids_at, d, e + (f + g));
    let after_ids: int = ids_at + d.len() as int;
    assert(e + (f + g) =~= seq![93u8] + (e.drop_first() + (f + g)));
    lemma_prefix_split(buf, after_ids, seq![93u8], e.drop_first() + (f + g));
    lemma_prefix_join(buf, ids_at, d, seq![93u8]);
    lemma_prefix_split(buf, after_ids, e, f + g);
    let seals_at: int = after_ids + 11;
    lemma_prefix_split(buf, seals_at, f, g);
    let after_seals: int = seals_at + f.len() as int;
    assert(g =~= seq![93u8] + seq![125u8]);
    lemma_prefix_split(buf, after_seals, seq![93u8], seq![125u8]);
    lemma_prefix_join(buf, seals_at, f, seq![93u8]);
}

/// Two pieces side by side make one.
proof fn lemma_prefix_join(buf: Seq<u8>, pos: int, a: Seq<u8>, b: Seq<u8>)
    requires
        prefix_at(buf, pos, a),
        prefix_at(buf, pos + a.len(), b),
    ensures
        prefix_at(buf, pos, a + b),
{
    assert(buf.subrange(pos, pos + a.len() + b.len()) =~= buf.subrange(pos, pos + a.len()) + buf.subrange(pos + a.len(), pos + a.len() + b.len()));
}

proof fn lemma_block_assemble(buf: Seq<u8>, pos: int, v: BlockView, after_prior: int, after_ids: int, after_seals: int)
    requires
        0 <= pos,
        pos + 9 <= after_prior,
        after_prior + 16 <= after_ids,
        after_ids + 11 <= after_seals,
        after_seals + 2 <= buf.len(),
        buf.subrange(pos, pos + 9) == prior_head(),
        buf.subrange(pos + 9, after_prior) == quoted(hex(v.prior)),
        buf.subrange(after_prior, after_prior + 16) == controllers_head(),
        buf.subrange(after_prior + 16, after_ids) == join(id_items(v.controllers)),
        buf.subrange(after_ids, after_ids + 11) == seals_head(),
        buf.subrange(after_ids + 11, after_seals) == join(seal_items(v.seals)),
        buf.subrange(after_seals, after_seals + 2) == block_tail(),
    ensures
        buf.subrange(pos, after_seals + 2) == block_json(v),
{
    crate::codec::lemma_heads();
    assert(buf.subrange(pos, after_seals + 2) =~= buf.subrange(pos, pos + 9) + (buf.subrange(pos + 9, after_prior) + (buf.subrange(after_prior, after_prior + 16) + (buf.subrange(after_prior + 16, after_ids)
        + (buf.subrange(after_ids, after_ids + 11) + (buf.subrange(after_ids + 11, after_seals) + buf.subrange(after_seals, after_seals + 2)))))));
}

/// Reads one block's canonical bytes at `pos`. If `target` is given and its
/// canonical bytes stand at `pos`, that block is read.
#[verifier::rlimit(60)]
pub(crate) fn read_block_at(bytes: &[u8], pos: usize, Ghost(target): Ghost<Option<BlockView>>) -> (r: Option<(Block, usize)>)
    requires
        pos <= bytes@.len(),
        target matches Some(v) ==> prefix_at(bytes@, pos as int, block_json(v)),
    ensures
        r matches Some((b, e)) ==> pos <= e <= bytes@.len() && bytes@.subrange(pos as int, e as int) == block_json(b@),
        target matches Some(v) ==> (r matches Some((b, e)) && b@ == v),
{
    let ghost tprior: Option<Seq<u8>> = match target {
        Some(v) => Some(v.prior),
        None => None,
    };
    let ghost tids: Option<Seq<Seq<u8>>> = match target {
        Some(v) => Some(v.controllers),
        None => None,
    };
    let ghost tseals: Option<Seq<SealView>> = match target {
        Some(v) => Some(v.seals),
        None => None,
    };
    proof {
        if let Some(v) = target {
            lemma_block_layout(bytes@, pos as int, v);
        }
    }
    let n = bytes.len();
    let ph: [u8; 9] = [123u8, 34, 112, 114, 105, 111, 114, 34, 58];
    let ch: [u8; 16] = [44u8, 34, 99, 111, 110, 116, 114, 111, 108, 108, 101, 114, 115, 34, 58, 91];
    let sh: [u8; 11] = [93u8, 44, 34, 115, 101, 97, 108, 115, 34, 58, 91];
    let bt: [u8; 2] = [93u8, 125];
    assert(ph@ =~= prior_head()) by {
        reveal(prior_head);
    }
    assert(ch@ =~= controllers_head()) by {
        reveal(controllers_head);
    }
    assert(sh@ =~= seals_head()) by {
        reveal(seals_head);
    }
    assert(bt@ =~= block_tail()) by {
        reveal(block_tail);
    }
    if !has_at(bytes, pos, &ph) {
        return None;
    }
    assert(pos + 9 <= n);
    let (prior, after_prior) = match read_hex(bytes, pos + 9, Ghost(tprior)) {
        Some(x) => x,
        None => return None,
    };
    if !has_at(bytes, after_prior, &ch) {
        return None;
    }
    assert(after_prior + 16 <= n);
    let ids_at = after_prior + 16;
    let (ids, after_ids) = match read_controllers(bytes, ids_at, Ghost(tids)) {
        Some(x) => x,
        None => return None,
    };
    if !has_at(bytes, after_ids, &sh) {
        return None;
    }
    assert(after_ids + 11 <= n);
    let seals_at = after_ids + 11;
    let (seals, after_seals) = match read_seals(bytes, seals_at, Ghost(tseals)) {
        Some(x) => x,
        None => return None,
    };
    if !has_at(bytes, after_seals, &bt) {
        return None;
    }
    assert(after_seals + 2 <= n);
    let b = Block { prior_digest: prior, controlling_identifiers: ids, seal_bundle: SealBundle { seals } };
    proof {
        assert(b@.controllers == ids@.map_values(|i: NontransferableIdentifier| i@));
        assert(b@.seals == seals@.map_values(|i: SealData| i@));
        lemma_block_assemble(bytes@, pos as int, b@, after_prior as int, after_ids as int, after_seals as int);
    }
    Some((b, after_seals + 2))
}

/// What reading `bytes` as a block may give: the block whose canonical bytes
/// they are, whenever some block has them as canonical bytes, or else
/// `DecodeError`.
pub open spec fn decoded(bytes: Seq<u8>, r: Result<Block, Error>) -> bool {
    &&& (r matches Ok(b) ==> block_json(b@) == bytes)
    &&& (r is Err ==> r == Err::<Block, Error>(Error::DecodeError))
    &&& ((exists|v: BlockView| block_json(v) == bytes) ==> r is Ok)
    &&& forall|v: BlockView| #[trigger] block_json(v) == bytes ==> (r matches Ok(b) && b@ == v)
}

/// Reads a block from its canonical bytes. The bytes are accepted exactly
/// when they are the canonical bytes of some block, and then the block read
/// is one whose canonical bytes they are.
pub fn decode_block(bytes: &[u8]) -> (r: Result<Block, Error>)
    ensures
        decoded(bytes@, r),
{
    let ghost target: Option<BlockView> = if exists|v: BlockView| block_json(v) == bytes@ {
        Some(choose|v: BlockView| block_json(v) == bytes@)
    } else {
        None
    };
    proof {
        assert(bytes@.subrange(0, bytes@.len() as int) =~= bytes@);
    }
    match read_block_at(bytes, 0, Ghost(target)) {
        Some((b, e)) => {
            if e != bytes.len() {
                return Err(Error::DecodeError);
            }
            proof {
                assert(bytes@.subrange(0, e as int) =~= bytes@);
                assert forall|v: BlockView| #[trigger] block_json(v) == bytes@ implies b@ == v by {
                    crate::unique::lemma_block_json_injective(b@, v);
                }
            }
            Ok(b)
        },
        None => Err(Error::DecodeError),
    }
}

/// Encoding a block, reading the bytes back, and encoding again gives the
/// same bytes: reading never fails on canonical bytes, and gives back the
/// very block.
pub proof fn lemma_round_trip(b: BlockView, r: Result<Block, Error>)
    requires
        decoded(block_json(b), r),
    ensures
        r matches Ok(d) && block_json(d@) == block_json(b) && d@ == b,
{
    assert(exists|v: BlockView| block_json(v) == block_json(b));
}

} // verus!
