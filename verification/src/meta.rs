//! Per-part placement metadata: one record per effectively visible
//! image part, in paint order — the order is the implicit z-index.

use vstd::prelude::*;
use crate::flatten::{
    flat_forest, flatten_tree, item_ids, items_view, lemma_flat_ids_from, visible_part_ids_from,
    ItemV,
};
use crate::fx::{px_round, round_px};
use crate::tree::{forest_view, LayerNode, NodeV};

verus! {

/// One placement record: the part's name, its absolute scale in
/// thousandths, and its absolute offset rounded to whole pixels.
pub struct MetaRecord {
    pub name: String,
    pub scale: i64,
    pub x: i64,
    pub y: i64,
}

/// The mathematical value of a placement record.
pub ghost struct MetaV {
    pub name: Seq<char>,
    pub scale: int,
    pub x: int,
    pub y: int,
}

impl View for MetaRecord {
    type V = MetaV;

    open spec fn view(&self) -> MetaV {
        MetaV { name: self.name@, scale: self.scale as int, x: self.x as int, y: self.y as int }
    }
}

/// The values of a run of placement records.
pub open spec fn metas_view(s: Seq<MetaRecord>) -> Seq<MetaV> {
    Seq::new(s.len(), |k: int| s[k]@)
}

/// The record of one render-list entry.
pub open spec fn meta_of_item(it: ItemV) -> MetaV {
    MetaV { name: it.name, scale: it.scale, x: px_round(it.dx), y: px_round(it.dy) }
}

/// The metadata of a render list: one record per entry, same order.
pub open spec fn metadata_spec(items: Seq<ItemV>) -> Seq<MetaV> {
    Seq::new(items.len(), |k: int| meta_of_item(items[k]))
}

/// Derive the placement metadata of the tree: one record per
/// effectively visible image part, in the same order as the flattened
/// render list (and so in paint order).
pub fn derive_metadata(layers: &Vec<LayerNode>) -> (r: Vec<MetaRecord>)
    ensures
        metas_view(r@) == metadata_spec(flat_forest(forest_view(layers@))),
{
    let items = flatten_tree(layers);
    let ghost fitems = items_view(items@);
    let mut out: Vec<MetaRecord> = Vec::new();
    let n = items.len();
    let mut k: usize = 0;
    while k < n
        invariant
            n == items@.len(),
            0 <= k <= n,
            fitems == items_view(items@),
            fitems == flat_forest(forest_view(layers@)),
            out@.len() == k,
            forall|j: int| 0 <= j < k ==> (#[trigger] out@[j])@ == meta_of_item(fitems[j]),
        decreases n - k,
    {
        let it = &items[k];
        proof {
            assert(it@ == fitems[k as int]);
        }
        let rec = MetaRecord {
            name: it.name.clone(),
            scale: it.scale,
            x: round_px(it.dx),
            y: round_px(it.dy),
        };
        out.push(rec);
        k = k + 1;
    }
    proof {
        assert(metas_view(out@) =~= metadata_spec(fitems));
    }
    out
}

/// Round trip of the metadata: the record run is exactly as long as
/// the render list — one record per effectively visible image part —
/// and record `k` carries the name, absolute scale and rounded
/// absolute offset of render-list entry `k`, so the two runs share
/// one order.
pub proof fn lemma_metadata_matches_flatten(ns: Seq<NodeV>)
    ensures
        metadata_spec(flat_forest(ns)).len() == flat_forest(ns).len(),
        metadata_spec(flat_forest(ns)).len() == visible_part_ids_from(ns, 0).len(),
        forall|k: int|
            0 <= k < flat_forest(ns).len() ==> #[trigger] metadata_spec(flat_forest(ns))[k]
                == meta_of_item(flat_forest(ns)[k]),
{
    lemma_flat_ids_from(ns, 0, 0, 0, crate::fx::FX_ONE as int);
    assert(item_ids(flat_forest(ns)).len() == flat_forest(ns).len());
}

} // verus!

// The metadata document: a JSON array of placement records, emitted by
// verified code byte for byte.

verus! {

use vstd::utf8::encode_utf8;

/// Decimal digits of `n`, most significant first.
pub open spec fn dec_bytes(n: nat) -> Seq<u8>
    decreases n,
{
    if n < 10 {
        seq![(48 + n) as u8]
    } else {
        dec_bytes(n / 10).push((48 + n % 10) as u8)
    }
}

/// A signed decimal number: a minus sign, then the digits.
pub open spec fn int_bytes(n: int) -> Seq<u8> {
    if n < 0 {
        seq![45u8] + dec_bytes((-n) as nat)
    } else {
        dec_bytes(n as nat)
    }
}

/// The three fractional digits of a fixed-point value, zero-padded.
pub open spec fn frac3_bytes(f: nat) -> Seq<u8> {
    seq![(48 + f / 100) as u8, (48 + (f / 10) % 10) as u8, (48 + f % 10) as u8]
}

/// A fixed-point thousandths value as a decimal number with exactly
/// three fractional digits (`2500` prints as `2.500`).
pub open spec fn fx_bytes(n: int) -> Seq<u8> {
    let m = if n < 0 {
        -n
    } else {
        n
    };
    let sign: Seq<u8> = if n < 0 {
        seq![45u8]
    } else {
        Seq::empty()
    };
    sign + dec_bytes((m / 1000) as nat) + seq![46u8] + frac3_bytes((m % 1000) as nat)
}

/// One lower-case hexadecimal digit.
pub open spec fn hex_digit(d: int) -> u8 {
    if d < 10 {
        (48 + d) as u8
    } else {
        (87 + d) as u8
    }
}

/// One byte of a JSON string body: quote and backslash are escaped,
/// control bytes become `\u00XX`, everything else passes through
/// (multi-byte UTF-8 sequences are valid JSON as they stand).
pub open spec fn esc_byte(b: u8) -> Seq<u8> {
    if b == 34 || b == 92 {
        seq![92u8, b]
    } else if b < 32 {
        seq![92u8, 117u8, 48u8, 48u8, hex_digit(b as int / 16), hex_digit(b as int % 16)]
    } else {
        seq![b]
    }
}

/// The escaped form of the first `k` bytes.
pub open spec fn esc_upto(bs: Seq<u8>, k: int) -> Seq<u8>
    decreases k,
{
    if k <= 0 {
        Seq::empty()
    } else {
        esc_upto(bs, k - 1) + esc_byte(bs[k - 1])
    }
}

/// A JSON string: the name's UTF-8 bytes, escaped, between quotes.
pub open spec fn json_string(name: Seq<char>) -> Seq<u8> {
    seq![34u8] + esc_upto(encode_utf8(name), encode_utf8(name).len() as int) + seq![34u8]
}

/// `{"name":"` — the opening of one record object.
pub open spec fn lit_name() -> Seq<u8> {
    seq![123u8, 34u8, 110u8, 97u8, 109u8, 101u8, 34u8, 58u8]
}

/// `,"scale":`
pub open spec fn lit_scale() -> Seq<u8> {
    seq![44u8, 34u8, 115u8, 99u8, 97u8, 108u8, 101u8, 34u8, 58u8]
}

/// `,"offset":{"x":`
pub open spec fn lit_offset() -> Seq<u8> {
    seq![
        44u8,
        34u8,
        111u8,
        102u8,
        102u8,
        115u8,
        101u8,
        116u8,
        34u8,
        58u8,
        123u8,
        34u8,
        120u8,
        34u8,
        58u8,
    ]
}

/// `,"y":`
pub open spec fn lit_y() -> Seq<u8> {
    seq![44u8, 34u8, 121u8, 34u8, 58u8]
}

/// `}}` — the close of the offset object and of the record object.
pub open spec fn lit_close() -> Seq<u8> {
    seq![125u8, 125u8]
}

/// One record object:
/// `{"name":NAME,"scale":SCALE,"offset":{"x":X,"y":Y}}`.
pub open spec fn entry_bytes(m: MetaV) -> Seq<u8> {
    lit_name() + json_string(m.name) + lit_scale() + fx_bytes(m.scale) + lit_offset() + int_bytes(
        m.x,
    ) + lit_y() + int_bytes(m.y) + lit_close()
}

/// The opening bracket and the first `k` record objects, separated by
/// commas.
pub open spec fn json_upto(ms: Seq<MetaV>, k: int) -> Seq<u8>
    decreases k,
{
    if k <= 0 {
        seq![91u8]
    } else {
        json_upto(ms, k - 1) + (if k > 1 {
            seq![44u8]
        } else {
            Seq::empty()
        }) + entry_bytes(ms[k - 1])
    }
}

/// The whole metadata document: a JSON array of record objects, in
/// paint order.
pub open spec fn metadata_json_of(ms: Seq<MetaV>) -> Seq<u8> {
    json_upto(ms, ms.len() as int) + seq![93u8]
}

/// Append the decimal digits of `n`.
fn push_dec(out: &mut Vec<u8>, n: u64)
    ensures
        final(out)@ == old(out)@ + dec_bytes(n as nat),
    decreases n,
{
    if n < 10 {
        out.push(48 + (n as u8));
        proof {
            assert(final(out)@ =~= old(out)@ + dec_bytes(n as nat));
        }
    } else {
        push_dec(out, n / 10);
        out.push(48 + ((n % 10) as u8));
        proof {
            assert(final(out)@ =~= old(out)@ + dec_bytes(n as nat));
        }
    }
}

/// Append a signed decimal number.
fn push_int(out: &mut Vec<u8>, v: i64)
    ensures
        final(out)@ == old(out)@ + int_bytes(v as int),
{
    if v < 0 {
        out.push(45);
        let m: u64 = (-(v as i128)) as u64;
        push_dec(out, m);
        proof {
            assert(final(out)@ =~= old(out)@ + int_bytes(v as int));
        }
    } else {
        push_dec(out, v as u64);
    }
}

/// Append a fixed-point thousandths value with three fractional digits.
fn push_fx(out: &mut Vec<u8>, v: i64)
    ensures
        final(out)@ == old(out)@ + fx_bytes(v as int),
{
    let m: u64 = if v < 0 {
        out.push(45);
        (-(v as i128)) as u64
    } else {
        v as u64
    };
    push_dec(out, m / 1000);
    out.push(46);
    let f: u64 = m % 1000;
    out.push(48 + ((f / 100) as u8));
    out.push(48 + (((f / 10) % 10) as u8));
    out.push(48 + ((f % 10) as u8));
    proof {
        assert(final(out)@ =~= old(out)@ + fx_bytes(v as int));
    }
}

/// Append a JSON string: the name's bytes, escaped, between quotes.
fn push_json_string(out: &mut Vec<u8>, s: &String)
    ensures
        final(out)@ == old(out)@ + json_string(s@),
{
    out.push(34);
    let bs: &[u8] = s.as_str().as_bytes();
    proof {
        assert(bs@ == encode_utf8(s@));
    }
    let n = bs.len();
    let mut i: usize = 0;
    while i < n
        invariant
            n == bs@.len(),
            0 <= i <= n,
            bs@ == encode_utf8(s@),
            out@ == old(out)@ + seq![34u8] + esc_upto(bs@, i as int),
        decreases n - i,
    {
        let ghost pre = out@;
        let b = bs[i];
        if b == 34 || b == 92 {
            out.push(92);
            out.push(b);
        } else if b < 32 {
            out.push(92);
            out.push(117);
            out.push(48);
            out.push(48);
            let hi = b / 16;
            let lo = b % 16;
            let hb: u8 = if hi < 10 {
                48 + hi
            } else {
                87 + hi
            };
            let lb: u8 = if lo < 10 {
                48 + lo
            } else {
                87 + lo
            };
            out.push(hb);
            out.push(lb);
        } else {
            out.push(b);
        }
        proof {
            assert(out@ =~= pre + esc_byte(bs@[i as int]));
            assert(pre + esc_byte(bs@[i as int]) =~= old(out)@ + seq![34u8] + esc_upto(
                bs@,
                i as int + 1,
            ));
        }
        i = i + 1;
    }
    out.push(34);
    proof {
        assert(final(out)@ =~= old(out)@ + json_string(s@));
    }
}

/// Append `{"name":` — the opening of one record object.
fn push_lit_name(out: &mut Vec<u8>)
    ensures
        final(out)@ == old(out)@ + lit_name(),
{
    out.push(123);
    out.push(34);
    out.push(110);
    out.push(97);
    out.push(109);
    out.push(101);
    out.push(34);
    out.push(58);
    proof {
        assert(final(out)@ =~= old(out)@ + lit_name());
    }
}

/// Append `,"scale":`.
fn push_lit_scale(out: &mut Vec<u8>)
    ensures
        final(out)@ == old(out)@ + lit_scale(),
{
    out.push(44);
    out.push(34);
    out.push(115);
    out.push(99);
    out.push(97);
    out.push(108);
    out.push(101);
    out.push(34);
    out.push(58);
    proof {
        assert(final(out)@ =~= old(out)@ + lit_scale());
    }
}

/// Append `,"offset":{"x":`.
fn push_lit_offset(out: &mut Vec<u8>)
    ensures
        final(out)@ == old(out)@ + lit_offset(),
{
    out.push(44);
    out.push(34);
    out.push(111);
    out.push(102);
    out.push(102);
    out.push(115);
    out.push(101);
    out.push(116);
    out.push(34);
    out.push(58);
    out.push(123);
    out.push(34);
    out.push(120);
    out.push(34);
    out.push(58);
    proof {
        assert(final(out)@ =~= old(out)@ + lit_offset());
    }
}

/// Append `,"y":`.
fn push_lit_y(out: &mut Vec<u8>)
    ensures
        final(out)@ == old(out)@ + lit_y(),
{
    out.push(44);
    out.push(34);
    out.push(121);
    out.push(34);
    out.push(58);
    proof {
        assert(final(out)@ =~= old(out)@ + lit_y());
    }
}

/// Append one record object.
fn push_entry(out: &mut Vec<u8>, r: &MetaRecord)
    ensures
        final(out)@ == old(out)@ + entry_bytes(r@),
{
    let ghost s0 = out@;
    push_lit_name(out);
    push_json_string(out, &r.name);
    let ghost p1 = lit_name() + json_string(r@.name);
    proof {
        assert(out@ =~= s0 + p1);
    }
    push_lit_scale(out);
    let ghost p2 = p1 + lit_scale();
    proof {
        assert(out@ =~= s0 + p2);
    }
    push_fx(out, r.scale);
    let ghost p3 = p2 + fx_bytes(r@.scale);
    proof {
        assert(out@ =~= s0 + p3);
    }
    push_lit_offset(out);
    let ghost p4 = p3 + lit_offset();
    proof {
        assert(out@ =~= s0 + p4);
    }
    push_int(out, r.x);
    let ghost p5 = p4 + int_bytes(r@.x);
    proof {
        assert(out@ =~= s0 + p5);
    }
    push_lit_y(out);
    let ghost p6 = p5 + lit_y();
    proof {
        assert(out@ =~= s0 + p6);
    }
    push_int(out, r.y);
    let ghost p7 = p6 + int_bytes(r@.y);
    proof {
        assert(out@ =~= s0 + p7);
    }
    out.push(125);
    out.push(125);
    proof {
        assert(out@ =~= s0 + (p7 + lit_close()));
        assert(p7 + lit_close() =~= entry_bytes(r@));
    }
}

/// Serialise the metadata records into the JSON document, byte for
/// byte as [`metadata_json_of`] states it.
pub fn metadata_json(records: &Vec<MetaRecord>) -> (out: Vec<u8>)
    ensures
        out@ == metadata_json_of(metas_view(records@)),
{
    let ghost ms = metas_view(records@);
    let mut out: Vec<u8> = Vec::new();
    out.push(91);
    proof {
        assert(out@ =~= json_upto(ms, 0));
    }
    let n = records.len();
    let mut k: usize = 0;
    while k < n
        invariant
            n == records@.len(),
            0 <= k <= n,
            ms == metas_view(records@),
            out@ == json_upto(ms, k as int),
        decreases n - k,
    {
        let ghost pre = out@;
        if k > 0 {
            out.push(44);
        }
        push_entry(&mut out, &records[k]);
        proof {
            assert(records@[k as int]@ == ms[k as int]);
            if k > 0 {
                assert(out@ =~= pre + seq![44u8] + entry_bytes(ms[k as int]));
            } else {
                assert(out@ =~= pre + entry_bytes(ms[k as int]));
                assert(pre + entry_bytes(ms[k as int]) =~= pre + Seq::<u8>::empty() + entry_bytes(
                    ms[k as int],
                ));
            }
            assert(out@ =~= json_upto(ms, k as int + 1));
        }
        k = k + 1;
    }
    out.push(93);
    proof {
        assert(out@ =~= metadata_json_of(ms));
    }
    out
}

} // verus!
