//! What plans hold: the steps of a draft, and the parts of a repacked container.

use vstd::prelude::*;

use crate::config;
use crate::draft;
use crate::draft::{Block, DraftOp, Rows, Weight};
use crate::forward;
use crate::forward::Step;
use crate::gdev;
use crate::gdev::GDev;
use crate::gguf::Entry;
use crate::prefill;
use crate::repack;
use crate::repack::FileV;
use crate::reply_laws;
use crate::text;

verus! {

// ---- a draft ------------------------------------------------------------------------------------

/// A block begins with the last token, and has masks behind it.
pub proof fn law_block_begins_with_the_last_token(last: u32, mask: u32, k: int, t: int)
    requires
        0 <= t < k <= usize::MAX,
    ensures
        draft::embed_ops(last, mask, k).len() == k,
        draft::embed_ops(last, mask, k)[0] == (DraftOp::Embed { t: 0, token: last }),
        t > 0 ==> draft::embed_ops(last, mask, k)[t] == (DraftOp::Embed {
            t: t as usize,
            token: mask,
        }),
    decreases k,
{
    if k > 1 {
        let before = draft::embed_ops(last, mask, k - 1);
        law_block_begins_with_the_last_token(last, mask, k - 1, 0);
        if t < k - 1 {
            law_block_begins_with_the_last_token(last, mask, k - 1, t);
            assert(draft::embed_ops(last, mask, k)[t] == before[t]);
        }
        assert(draft::embed_ops(last, mask, k)[0] == before[0]);
    } else {
        assert(draft::embed_ops(last, mask, 0) == Seq::<DraftOp>::empty());
    }
}

/// Each block of positions has its anchor in front.
pub proof fn law_anchors_are_in_front(size: int, k: int, n: int, i: int)
    requires
        0 < size,
        0 <= n,
        0 <= i < size,
        n * size + i < k <= usize::MAX,
    ensures
        draft::snr_ops(size, k).len() == k,
        draft::snr_ops(size, k)[n * size + i] == (DraftOp::Snr {
            t: (n * size + i) as usize,
            anchor: i == 0,
        }),
    decreases k,
{
    let t = n * size + i;
    assert(0 <= n * size && n * size == size * n) by (nonlinear_arith)
        requires
            0 <= n,
            0 < size,
    ;
    let all = draft::snr_ops(size, k);
    let before = draft::snr_ops(size, k - 1);
    lemma_snr_len(size, k - 1);
    if t < k - 1 {
        law_anchors_are_in_front(size, k - 1, n, i);
        assert(all[t] == before[t]);
    } else {
        vstd::arithmetic::div_mod::lemma_fundamental_div_mod_converse(t, size, n, i);
    }
}

proof fn lemma_snr_len(size: int, k: int)
    requires
        0 <= k,
    ensures
        draft::snr_ops(size, k).len() == k,
    decreases k,
{
    if k > 0 {
        lemma_snr_len(size, k - 1);
    }
}

/// A step is in a plan.
pub open spec fn does(ops: Seq<DraftOp>, op: DraftOp) -> bool {
    exists|i: int| 0 <= i < ops.len() && #[trigger] ops[i] == op
}

proof fn lemma_does(a: Seq<DraftOp>, b: Seq<DraftOp>, c: Seq<DraftOp>, op: DraftOp)
    requires
        does(b, op),
    ensures
        does(a + b + c, op),
{
    let i = choose|i: int| 0 <= i < b.len() && #[trigger] b[i] == op;
    assert((a + b + c)[a.len() + i] == op);
}

proof fn lemma_head(w: Weight, il: int, rows: Rows, t: int, pos: int, k: int, h: int)
    requires
        0 <= h < k,
    ensures
        does(
            draft::head_ops(w, il, rows, t, pos, k),
            (DraftOp::Head {
                weight: w,
                il: il as usize,
                rows,
                t: t as usize,
                h: h as usize,
                pos: pos as usize,
            }),
        ),
    decreases k,
{
    let op = DraftOp::Head {
        weight: w,
        il: il as usize,
        rows,
        t: t as usize,
        h: h as usize,
        pos: pos as usize,
    };
    let all = draft::head_ops(w, il, rows, t, pos, k);
    let before = draft::head_ops(w, il, rows, t, pos, k - 1);
    if h < k - 1 {
        lemma_head(w, il, rows, t, pos, k - 1, h);
        let i = choose|i: int| 0 <= i < before.len() && #[trigger] before[i] == op;
        assert(all[i] == op);
    } else {
        assert(all[before.len() as int] == op);
    }
}

proof fn lemma_put(b: Block, il: int, k: int, t: int, op: DraftOp)
    requires
        0 <= t < k,
        does(
            draft::head_ops(Weight::AttnQNorm, il, Rows::Q, t, b.n_past + t, b.n_head)
                + draft::head_ops(Weight::AttnKNorm, il, Rows::K, t, b.n_past + t, b.n_head_kv)
                + seq![
                DraftOp::Put { il: il as usize, t: t as usize, pos: (b.n_past + t) as usize },
            ],
            op,
        ),
    ensures
        does(draft::put_ops(b, il, k), op),
    decreases k,
{
    let none = Seq::<DraftOp>::empty();
    let s = k - 1;
    let before = draft::put_ops(b, il, s);
    let q = draft::head_ops(Weight::AttnQNorm, il, Rows::Q, s, b.n_past + s, b.n_head);
    let kk = draft::head_ops(Weight::AttnKNorm, il, Rows::K, s, b.n_past + s, b.n_head_kv);
    let p = seq![DraftOp::Put { il: il as usize, t: s as usize, pos: (b.n_past + s) as usize }];
    let all = draft::put_ops(b, il, k);
    if t < s {
        lemma_put(b, il, s, t, op);
        lemma_does(none, before, q + kk + p, op);
        assert(none + before + (q + kk + p) =~= all);
    } else {
        lemma_does(before, q + kk + p, none, op);
        assert(before + (q + kk + p) + none =~= all);
    }
}

proof fn lemma_attend(b: Block, il: int, t: int, k: int, h: int)
    requires
        0 <= h < k,
    ensures
        does(
            draft::attend_row(b, il, t, k),
            (DraftOp::Attend {
                il: il as usize,
                t: t as usize,
                h: h as usize,
                kv: (h / (b.n_head / b.n_head_kv)) as usize,
                n_pos: draft::seen(b, t) as usize,
            }),
        ),
    decreases k,
{
    let op = DraftOp::Attend {
        il: il as usize,
        t: t as usize,
        h: h as usize,
        kv: (h / (b.n_head / b.n_head_kv)) as usize,
        n_pos: draft::seen(b, t) as usize,
    };
    let all = draft::attend_row(b, il, t, k);
    let before = draft::attend_row(b, il, t, k - 1);
    if h < k - 1 {
        lemma_attend(b, il, t, k - 1, h);
        let i = choose|i: int| 0 <= i < before.len() && #[trigger] before[i] == op;
        assert(all[i] == op);
    } else {
        assert(all[before.len() as int] == op);
    }
}

proof fn lemma_attends(b: Block, il: int, k: int, t: int, op: DraftOp)
    requires
        0 <= t < k,
        does(draft::attend_row(b, il, t, b.n_head), op),
    ensures
        does(draft::attend_ops(b, il, k), op),
    decreases k,
{
    let none = Seq::<DraftOp>::empty();
    let before = draft::attend_ops(b, il, k - 1);
    let last = draft::attend_row(b, il, k - 1, b.n_head);
    if t < k - 1 {
        lemma_attends(b, il, k - 1, t, op);
        lemma_does(none, before, last, op);
        assert(none + before + last =~= before + last);
    } else {
        lemma_does(before, last, none, op);
        assert(before + last + none =~= before + last);
    }
}

/// In each layer every row has its keys and values put at its own position, its heads turned by
/// that position, and every head of queries attends, with the heads that share keys and values
/// next to one another. A row sees the positions up to its own; without causality it sees all.
#[verifier::spinoff_prover]
#[verifier::rlimit(60)]
pub proof fn law_rows_are_put_and_attend(b: Block, il: int, t: int, h: int)
    requires
        0 <= t < b.n_tok,
        0 <= h < b.n_head,
    ensures
        does(
            draft::layer_ops(b, il),
            (DraftOp::Put { il: il as usize, t: t as usize, pos: (b.n_past + t) as usize }),
        ),
        does(
            draft::layer_ops(b, il),
            (DraftOp::Head {
                weight: Weight::AttnQNorm,
                il: il as usize,
                rows: Rows::Q,
                t: t as usize,
                h: h as usize,
                pos: (b.n_past + t) as usize,
            }),
        ),
        h < b.n_head_kv ==> does(
            draft::layer_ops(b, il),
            (DraftOp::Head {
                weight: Weight::AttnKNorm,
                il: il as usize,
                rows: Rows::K,
                t: t as usize,
                h: h as usize,
                pos: (b.n_past + t) as usize,
            }),
        ),
        does(
            draft::layer_ops(b, il),
            (DraftOp::Attend {
                il: il as usize,
                t: t as usize,
                h: h as usize,
                kv: (h / (b.n_head / b.n_head_kv)) as usize,
                n_pos: (if b.noncausal {
                    b.filled
                } else {
                    b.n_past + t + 1
                }) as usize,
            }),
        ),
{
    let none = Seq::<DraftOp>::empty();
    let pos = b.n_past + t;
    let q = draft::head_ops(Weight::AttnQNorm, il, Rows::Q, t, pos, b.n_head);
    let kk = draft::head_ops(Weight::AttnKNorm, il, Rows::K, t, pos, b.n_head_kv);
    let p = seq![DraftOp::Put { il: il as usize, t: t as usize, pos: pos as usize }];
    let put = p[0];
    let turn = DraftOp::Head {
        weight: Weight::AttnQNorm,
        il: il as usize,
        rows: Rows::Q,
        t: t as usize,
        h: h as usize,
        pos: pos as usize,
    };
    assert(does(p, put));
    lemma_does(q + kk, p, none, put);
    assert(q + kk + p + none =~= q + kk + p);
    lemma_put(b, il, b.n_tok, t, put);
    lemma_head(Weight::AttnQNorm, il, Rows::Q, t, pos, b.n_head, h);
    lemma_does(none, q, kk + p, turn);
    assert(none + q + (kk + p) =~= q + kk + p);
    lemma_put(b, il, b.n_tok, t, turn);
    let puts = draft::put_ops(b, il, b.n_tok);
    let all = draft::layer_ops(b, il);
    let before = draft::norm_ops(Weight::AttnNorm, il, Rows::X, Rows::Xn, b.n_tok) + seq![
        draft::matmul(Weight::AttnQ, il, Rows::Xn, Rows::Q),
        draft::matmul(Weight::AttnK, il, Rows::Xn, Rows::K),
        draft::matmul(Weight::AttnV, il, Rows::Xn, Rows::V),
    ];
    let attends = draft::attend_ops(b, il, b.n_tok);
    let fill = seq![DraftOp::Fill { end: (b.n_past + b.n_tok) as usize }];
    let tail = all.skip((before.len() + puts.len() + fill.len() + attends.len()) as int);
    assert(all =~= before + puts + (fill + attends + tail));
    assert(all =~= before + puts + fill + attends + tail);
    lemma_does(before, puts, fill + attends + tail, put);
    lemma_does(before, puts, fill + attends + tail, turn);
    if h < b.n_head_kv {
        let key = DraftOp::Head {
            weight: Weight::AttnKNorm,
            il: il as usize,
            rows: Rows::K,
            t: t as usize,
            h: h as usize,
            pos: pos as usize,
        };
        lemma_head(Weight::AttnKNorm, il, Rows::K, t, pos, b.n_head_kv, h);
        lemma_does(q, kk, p, key);
        lemma_put(b, il, b.n_tok, t, key);
        lemma_does(before, puts, fill + attends + tail, key);
    }
    let op = DraftOp::Attend {
        il: il as usize,
        t: t as usize,
        h: h as usize,
        kv: (h / (b.n_head / b.n_head_kv)) as usize,
        n_pos: draft::seen(b, t) as usize,
    };
    lemma_attend(b, il, t, b.n_head, h);
    lemma_attends(b, il, b.n_tok, t, op);
    lemma_does(before + puts + fill, attends, tail, op);
}

/// The end of the filled positions lies one past the largest, and is where some position ends.
pub proof fn law_end_of_positions(positions: Seq<usize>, k: int)
    requires
        0 <= k <= positions.len(),
    ensures
        forall|i: int| 0 <= i < k ==> #[trigger] positions[i] < draft::end_of(positions, k),
        k > 0 ==> exists|i: int|
            0 <= i < k && #[trigger] positions[i] + 1 == draft::end_of(positions, k),
        k == 0 ==> draft::end_of(positions, k) == 0,
    decreases k,
{
    if k > 0 {
        law_end_of_positions(positions, k - 1);
        if positions[k - 1] + 1 > draft::end_of(positions, k - 1) {
            assert(positions[k - 1] + 1 == draft::end_of(positions, k));
        } else if k > 1 {
            let i = choose|i: int|
                0 <= i < k - 1 && #[trigger] positions[i] + 1 == draft::end_of(positions, k - 1);
            assert(positions[i] + 1 == draft::end_of(positions, k));
        }
    }
}

/// The first position without room has none, and all before it have.
pub proof fn law_first_outside(positions: Seq<usize>, n_ctx: int, k: int)
    requires
        0 <= k <= positions.len(),
    ensures
        match draft::first_outside(positions, n_ctx, k) {
            Some(j) => k <= j < positions.len() && positions[j] >= n_ctx && (forall|i: int|
                k <= i < j ==> #[trigger] positions[i] < n_ctx),
            None => forall|i: int| k <= i < positions.len() ==> #[trigger] positions[i] < n_ctx,
        },
    decreases positions.len() - k,
{
    if k < positions.len() && positions[k] < n_ctx {
        law_first_outside(positions, n_ctx, k + 1);
    }
}

// ---- a repacked container -----------------------------------------------------------------------

/// Each tensor, in the order given, is kept unless it is byte for byte that of the reference; the
/// names of the others are listed in that order.
pub proof fn law_tensors_are_sorted_out(
    f: FileV,
    reference: Option<FileV>,
    order: Seq<int>,
    k: int,
    kept: Seq<int>,
    shared: Seq<Seq<char>>,
)
    requires
        0 <= k <= order.len(),
        repack::sorted_out(f, reference, order, k) == Ok::<(Seq<int>, Seq<Seq<char>>), Seq<char>>(
            (kept, shared),
        ),
    ensures
        kept.len() + shared.len() == k,
        forall|j: int|
            0 <= j < kept.len() ==> repack::same_in(f, reference, #[trigger] kept[j]) == Ok::<
                bool,
                Seq<char>,
            >(false),
        forall|j: int|
            0 <= j < k ==> match repack::same_in(f, reference, #[trigger] order[j]) {
                Ok(true) => shared.contains(f.h.tensors[order[j]].name),
                Ok(false) => kept.contains(order[j]),
                Err(_) => false,
            },
    decreases k,
{
    if k > 0 {
        let i = order[k - 1];
        match repack::sorted_out(f, reference, order, k - 1) {
            Err(_) => {},
            Ok((a, b)) => {
                law_tensors_are_sorted_out(f, reference, order, k - 1, a, b);
                assert forall|j: int| 0 <= j < k implies match repack::same_in(
                    f,
                    reference,
                    #[trigger] order[j],
                ) {
                    Ok(true) => shared.contains(f.h.tensors[order[j]].name),
                    Ok(false) => kept.contains(order[j]),
                    Err(_) => false,
                } by {
                    let n = f.h.tensors[order[j]].name;
                    if j < k - 1 {
                        if a.contains(order[j]) {
                            let x = choose|x: int| 0 <= x < a.len() && a[x] == order[j];
                            assert(kept[x] == order[j]);
                        }
                        if b.contains(n) {
                            let x = choose|x: int| 0 <= x < b.len() && b[x] == n;
                            assert(shared[x] == n);
                        }
                    } else {
                        match repack::same_in(f, reference, i) {
                            Ok(true) => {
                                assert(shared[b.len() as int] == n);
                            },
                            Ok(false) => {
                                assert(kept[a.len() as int] == i);
                            },
                            Err(_) => {},
                        }
                    }
                }
            },
        }
    }
}

/// Entries in the order of their keys.
pub open spec fn in_order(es: Seq<Entry>) -> bool {
    forall|i: int, j: int|
        0 <= i < j < es.len() ==> !text::str_lt((#[trigger] es[j]).0, (#[trigger] es[i]).0)
}

/// An entry put into a sorted list leaves it sorted, and is one more in it.
pub proof fn law_insertion_keeps_order(es: Seq<Entry>, e: Entry)
    requires
        in_order(es),
    ensures
        in_order(repack::inserted(es, e)),
        repack::inserted(es, e).len() == es.len() + 1,
        repack::inserted(es, e).to_multiset() == es.to_multiset().insert(e),
        forall|i: int|
            0 <= i < es.len() + 1 ==> (#[trigger] repack::inserted(es, e)[i] == e || es.contains(
                repack::inserted(es, e)[i],
            )),
    decreases es.len(),
{
    broadcast use vstd::seq_lib::group_to_multiset_ensures;

    let r = repack::inserted(es, e);
    if es.len() > 0 && text::str_lt(e.0, es.last().0) {
        let d = es.drop_last();
        let last = es.last();
        assert(in_order(d)) by {
            assert forall|i: int, j: int| 0 <= i < j < d.len() implies !text::str_lt(
                (#[trigger] d[j]).0,
                (#[trigger] d[i]).0,
            ) by {
                assert(d[i] == es[i] && d[j] == es[j]);
            }
        }
        law_insertion_keeps_order(d, e);
        let w = repack::inserted(d, e);
        assert(r == w.push(last));
        assert(es =~= d.push(last));
        assert(es.to_multiset() =~= d.to_multiset().insert(last));
        assert(r.to_multiset() =~= w.to_multiset().insert(last));
        assert(r.to_multiset() =~= es.to_multiset().insert(e));
        let n = es.len() - 1;
        assert forall|i: int| 0 <= i < es.len() + 1 implies (#[trigger] r[i] == e || es.contains(
            r[i],
        )) by {
            if i < w.len() {
                assert(r[i] == w[i]);
                if w[i] != e {
                    assert(d.contains(w[i]));
                    let x = choose|x: int| 0 <= x < d.len() && d[x] == w[i];
                    assert(es[x] == w[i]);
                }
            } else {
                assert(es[n] == r[i]);
            }
        }
        assert forall|i: int, j: int| 0 <= i < j < r.len() implies !text::str_lt(
            (#[trigger] r[j]).0,
            (#[trigger] r[i]).0,
        ) by {
            if j < w.len() {
                assert(r[i] == w[i] && r[j] == w[j]);
            } else {
                assert(r[j] == last && r[i] == w[i]);
                text::lemma_str_order(e.0, last.0, e.0);
                if w[i] != e {
                    assert(d.contains(w[i]));
                    let x = choose|x: int| 0 <= x < d.len() && d[x] == w[i];
                    assert(es[x] == w[i] && es[n] == last);
                }
            }
        }
    } else {
        assert(r == es.push(e));
        assert forall|i: int| 0 <= i < es.len() + 1 implies (#[trigger] r[i] == e || es.contains(
            r[i],
        )) by {
            if i < es.len() {
                assert(es[i] == r[i]);
            }
        }
        assert forall|i: int, j: int| 0 <= i < j < r.len() implies !text::str_lt(
            (#[trigger] r[j]).0,
            (#[trigger] r[i]).0,
        ) by {
            if j < es.len() {
                assert(r[i] == es[i] && r[j] == es[j]);
            } else {
                assert(r[i] == es[i]);
                let n = es.len() - 1;
                let z = es[n].0;
                if i < n {
                    assert(!text::str_lt(es[n].0, es[i].0));
                    text::lemma_str_order(e.0, es[i].0, z);
                    text::lemma_str_order(z, e.0, es[i].0);
                    text::lemma_str_order(es[i].0, z, e.0);
                }
            }
        }
    }
}

// ---- a device -------------------------------------------------------------------------------------

/// The device looks up the tensors that the host works with, by the same names.
pub proof fn law_device_and_host_share_names(il: usize, i: int)
    requires
        0 <= i,
    ensures
        i < 7 ==> forward::parts_of(Step::Attention { il })[i].1 == config::blk_text(
            il as int,
            GDev::attn_names()[i],
        ),
        i < 4 ==> forward::parts_of(Step::Ffn { il })[i].1 == config::blk_text(
            il as int,
            GDev::ffn_names()[i],
        ),
        i < 5 ==> forward::parts_of(Step::Recurrent { il })[i].1 == config::blk_text(
            il as int,
            GDev::gdn_names()[i],
        ),
        5 <= i < 8 ==> forward::parts_of(Step::Recurrent { il })[i + 2].1 == config::blk_text(
            il as int,
            GDev::gdn_names()[i],
        ),
{
}

/// Groups of 256 cover all elements, and none is left without one.
pub proof fn law_groups_cover(n: int)
    requires
        0 <= n,
    ensures
        256 * gdev::ceil_256(n) >= n,
        n > 0 ==> 256 * (gdev::ceil_256(n) - 1) < n,
        gdev::some_groups(n) >= 1,
        n > 0 ==> gdev::some_groups(n) == gdev::ceil_256(n),
{
}

/// A context length within bounds is obeyed; any other gives the default.
pub proof fn law_context_is_obeyed(n: nat)
    requires
        n <= usize::MAX,
    ensures
        16 <= n <= 262144 ==> gdev::ctx_of(Some(text::decimal(n))) == n,
        !(16 <= n <= 262144) ==> gdev::ctx_of(Some(text::decimal(n))) == gdev::ctx_of(None),
{
    reply_laws::law_decimal_reads_back(n, usize::MAX as nat);
}

/// A batch width of two or more is obeyed, with white space around it or not; less means token by
/// token.
pub proof fn law_batch_width_is_obeyed(n: nat, a: Seq<char>, b: Seq<char>)
    requires
        n <= usize::MAX,
        forall|i: int| 0 <= i < a.len() ==> text::char_is_whitespace(#[trigger] a[i]),
        forall|i: int| 0 <= i < b.len() ==> text::char_is_whitespace(#[trigger] b[i]),
    ensures
        prefill::width_of(Some(a + text::decimal(n) + b)) == if n >= 2 {
            n as int
        } else {
            0
        },
        prefill::width_of(None) == 0,
{
    let d = text::decimal(n);
    let s = a + d + b;
    reply_laws::lemma_decimal(n);
    reply_laws::law_decimal_reads_back(n, usize::MAX as nat);
    let (x, y) = (a.len() as int, (a.len() + d.len()) as int);
    assert(text::trims_at(s, d, x, y)) by {
        assert(s.subrange(x, y) =~= d);
        assert forall|i: int| 0 <= i < x implies text::char_is_whitespace(#[trigger] s[i]) by {
            assert(s[i] == a[i]);
        }
        assert forall|i: int| y <= i < s.len() implies text::char_is_whitespace(#[trigger] s[i]) by {
            assert(s[i] == b[i - y]);
        }
        assert(text::is_digit(d[0]) && text::is_digit(d[d.len() - 1]));
    }
    assert(text::trims(s, d));
    text::law_trimmed(s);
    text::law_trims_unique(s, text::trimmed(s), d);
}

} // verus!
