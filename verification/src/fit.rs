use vstd::prelude::*;
use crate::BinOp;
use crate::polynomial::Polynomial;
use crate::polynomial::distinct_names;
use crate::polynomial::poly_wf;
use crate::polynomial::merge_names;
use crate::polynomial::merge_monos;
use crate::polynomial::flatten_poly;
use crate::polynomial::lemma_add_names_distinct;
use crate::polynomial::lemma_add_names_len;
use crate::polynomial::lemma_add_monos_distinct;
use crate::polynomial::lemma_add_monos_contains;
use crate::rex::KindView;
use crate::rex::RexID;
use crate::rex::rex_wf;
use crate::rex::kind_is_internal;
use crate::rex::ArrowView;
use crate::rex::TarView;
use crate::rex::tar_wf;

verus! {

/// View of a polynomial: its monomials, each a list of names.
pub type PolyView = Seq<Seq<Seq<char>>>;

// --- Construction of a fat arrow rule from a chain of parts ---

/// The polynomial standing left of step `k`: the head for the first step,
/// afterwards the polynomial of the preceding step.
pub open spec fn prev_poly(head: PolyView, tail: Seq<(BinOp, PolyView)>, k: int) -> PolyView {
    if k <= 0 {
        head
    } else {
        tail[k - 1].1
    }
}

/// The one or two parts a single chain step contributes.
pub open spec fn step_arrows(prev: PolyView, op: BinOp, poly: PolyView) -> Seq<ArrowView> {
    match op {
        BinOp::FatTx => seq![ArrowView { cause: prev, effect: poly }],
        BinOp::FatRx => seq![ArrowView { cause: poly, effect: prev }],
        BinOp::FatDx => seq![
            ArrowView { cause: prev, effect: poly },
            ArrowView { cause: poly, effect: prev },
        ],
        BinOp::Add => Seq::empty(),
    }
}

/// The parts contributed by the first `n` steps of the chain.
pub open spec fn parts_upto(head: PolyView, tail: Seq<(BinOp, PolyView)>, n: int) -> Seq<ArrowView>
    decreases n,
{
    if n <= 0 {
        Seq::empty()
    } else {
        parts_upto(head, tail, n - 1) + step_arrows(
            prev_poly(head, tail, n - 1),
            tail[n - 1].0,
            tail[n - 1].1,
        )
    }
}

/// The full decomposition of a fat arrow chain into two-polynomial parts.
pub open spec fn far_parts(head: PolyView, tail: Seq<(BinOp, PolyView)>) -> Seq<ArrowView> {
    parts_upto(head, tail, tail.len() as int)
}

/// The views of the polynomials of the chain's tail, with their operators.
pub open spec fn tail_view(tail: Seq<(BinOp, Polynomial)>) -> Seq<(BinOp, PolyView)> {
    tail.map_values(|p: (BinOp, Polynomial)| (p.0, p.1@))
}

// --- The FIT transformation, phase by phase ---

/// The first index of `acc` whose rule has node list `key`, or -1.
pub open spec fn first_with_nodes(acc: Seq<TarView>, key: Seq<Seq<char>>) -> int
    decreases acc.len(),
{
    if acc.len() == 0 {
        -1
    } else if acc[0].nodes == key {
        0
    } else {
        let r = first_with_nodes(acc.drop_first(), key);
        if r < 0 {
            -1
        } else {
            r + 1
        }
    }
}

/// The first index of `acc` whose rule has effect polynomial `key`, or -1.
pub open spec fn first_with_effect(acc: Seq<TarView>, key: PolyView) -> int
    decreases acc.len(),
{
    if acc.len() == 0 {
        -1
    } else if acc[0].effect == key {
        0
    } else {
        let r = first_with_effect(acc.drop_first(), key);
        if r < 0 {
            -1
        } else {
            r + 1
        }
    }
}

/// The first index of `acc` whose rule has cause polynomial `key`, or -1.
pub open spec fn first_with_cause(acc: Seq<TarView>, key: PolyView) -> int
    decreases acc.len(),
{
    if acc.len() == 0 {
        -1
    } else if acc[0].cause == key {
        0
    } else {
        let r = first_with_cause(acc.drop_first(), key);
        if r < 0 {
            -1
        } else {
            r + 1
        }
    }
}

pub proof fn lemma_first_with_nodes(acc: Seq<TarView>, key: Seq<Seq<char>>)
    ensures
        ({
            let r = first_with_nodes(acc, key);
            &&& (r == -1 ==> forall|k: int| 0 <= k < acc.len() ==> (#[trigger] acc[k]).nodes != key)
            &&& (r != -1 ==> 0 <= r < acc.len() && acc[r].nodes == key && forall|k: int|
                0 <= k < r ==> (#[trigger] acc[k]).nodes != key)
        }),
    decreases acc.len(),
{
    if acc.len() > 0 && acc[0].nodes != key {
        let rest = acc.drop_first();
        lemma_first_with_nodes(rest, key);
        let r2 = first_with_nodes(rest, key);
        if r2 == -1 {
            assert forall|k: int| 0 <= k < acc.len() implies (#[trigger] acc[k]).nodes != key by {
                if k >= 1 {
                    assert(acc[k] == rest[k - 1]);
                }
            }
        } else {
            assert(acc[r2 + 1] == rest[r2]);
            assert forall|k: int| 0 <= k < r2 + 1 implies (#[trigger] acc[k]).nodes != key by {
                if k >= 1 {
                    assert(acc[k] == rest[k - 1]);
                }
            }
        }
    }
}

pub proof fn lemma_first_with_effect(acc: Seq<TarView>, key: PolyView)
    ensures
        ({
            let r = first_with_effect(acc, key);
            &&& (r == -1 ==> forall|k: int| 0 <= k < acc.len() ==> (#[trigger] acc[k]).effect != key)
            &&& (r != -1 ==> 0 <= r < acc.len() && acc[r].effect == key && forall|k: int|
                0 <= k < r ==> (#[trigger] acc[k]).effect != key)
        }),
    decreases acc.len(),
{
    if acc.len() > 0 && acc[0].effect != key {
        let rest = acc.drop_first();
        lemma_first_with_effect(rest, key);
        let r2 = first_with_effect(rest, key);
        if r2 == -1 {
            assert forall|k: int| 0 <= k < acc.len() implies (#[trigger] acc[k]).effect != key by {
                if k >= 1 {
                    assert(acc[k] == rest[k - 1]);
                }
            }
        } else {
            assert(acc[r2 + 1] == rest[r2]);
            assert forall|k: int| 0 <= k < r2 + 1 implies (#[trigger] acc[k]).effect != key by {
                if k >= 1 {
                    assert(acc[k] == rest[k - 1]);
                }
            }
        }
    }
}

pub proof fn lemma_first_with_cause(acc: Seq<TarView>, key: PolyView)
    ensures
        ({
            let r = first_with_cause(acc, key);
            &&& (r == -1 ==> forall|k: int| 0 <= k < acc.len() ==> (#[trigger] acc[k]).cause != key)
            &&& (r != -1 ==> 0 <= r < acc.len() && acc[r].cause == key && forall|k: int|
                0 <= k < r ==> (#[trigger] acc[k]).cause != key)
        }),
    decreases acc.len(),
{
    if acc.len() > 0 && acc[0].cause != key {
        let rest = acc.drop_first();
        lemma_first_with_cause(rest, key);
        let r2 = first_with_cause(rest, key);
        if r2 == -1 {
            assert forall|k: int| 0 <= k < acc.len() implies (#[trigger] acc[k]).cause != key by {
                if k >= 1 {
                    assert(acc[k] == rest[k - 1]);
                }
            }
        } else {
            assert(acc[r2 + 1] == rest[r2]);
            assert forall|k: int| 0 <= k < r2 + 1 implies (#[trigger] acc[k]).cause != key by {
                if k >= 1 {
                    assert(acc[k] == rest[k - 1]);
                }
            }
        }
    }
}

// Phase 1: split each part into an effect-only and a cause-only rule.

/// The effect-only rules of the first `n` parts.
pub open spec fn tx_split(parts: Seq<ArrowView>, n: int) -> Seq<TarView>
    decreases n,
{
    if n <= 0 {
        Seq::empty()
    } else {
        tx_split(parts, n - 1).push(
            TarView {
                nodes: flatten_poly(parts[n - 1].cause),
                cause: Seq::empty(),
                effect: parts[n - 1].effect,
            },
        )
    }
}

/// The cause-only rules of the first `n` parts.
pub open spec fn rx_split(parts: Seq<ArrowView>, n: int) -> Seq<TarView>
    decreases n,
{
    if n <= 0 {
        Seq::empty()
    } else {
        rx_split(parts, n - 1).push(
            TarView {
                nodes: flatten_poly(parts[n - 1].effect),
                cause: parts[n - 1].cause,
                effect: Seq::empty(),
            },
        )
    }
}

// Phase 2: merge rules sharing a node list, folding the other rule's
// polynomial in.

pub open spec fn merge_eff_step(acc: Seq<TarView>, t: TarView) -> Seq<TarView> {
    let j = first_with_nodes(acc, t.nodes);
    if j >= 0 {
        acc.update(
            j,
            TarView {
                nodes: acc[j].nodes,
                cause: acc[j].cause,
                effect: merge_monos(acc[j].effect, t.effect),
            },
        )
    } else {
        acc.push(t)
    }
}

pub open spec fn merge_eff_upto(tars: Seq<TarView>, n: int) -> Seq<TarView>
    decreases n,
{
    if n <= 0 {
        Seq::empty()
    } else {
        merge_eff_step(merge_eff_upto(tars, n - 1), tars[n - 1])
    }
}

pub open spec fn merge_cau_step(acc: Seq<TarView>, t: TarView) -> Seq<TarView> {
    let j = first_with_nodes(acc, t.nodes);
    if j >= 0 {
        acc.update(
            j,
            TarView {
                nodes: acc[j].nodes,
                cause: merge_monos(acc[j].cause, t.cause),
                effect: acc[j].effect,
            },
        )
    } else {
        acc.push(t)
    }
}

pub open spec fn merge_cau_upto(tars: Seq<TarView>, n: int) -> Seq<TarView>
    decreases n,
{
    if n <= 0 {
        Seq::empty()
    } else {
        merge_cau_step(merge_cau_upto(tars, n - 1), tars[n - 1])
    }
}

// Phase 3: merge rules sharing the relevant polynomial, folding node lists.

pub open spec fn merge_by_eff_step(acc: Seq<TarView>, t: TarView) -> Seq<TarView> {
    let j = first_with_effect(acc, t.effect);
    if j >= 0 {
        acc.update(
            j,
            TarView {
                nodes: merge_names(acc[j].nodes, t.nodes),
                cause: acc[j].cause,
                effect: acc[j].effect,
            },
        )
    } else {
        acc.push(t)
    }
}

pub open spec fn merge_by_eff_upto(tars: Seq<TarView>, n: int) -> Seq<TarView>
    decreases n,
{
    if n <= 0 {
        Seq::empty()
    } else {
        merge_by_eff_step(merge_by_eff_upto(tars, n - 1), tars[n - 1])
    }
}

pub open spec fn merge_by_cau_step(acc: Seq<TarView>, t: TarView) -> Seq<TarView> {
    let j = first_with_cause(acc, t.cause);
    if j >= 0 {
        acc.update(
            j,
            TarView {
                nodes: merge_names(acc[j].nodes, t.nodes),
                cause: acc[j].cause,
                effect: acc[j].effect,
            },
        )
    } else {
        acc.push(t)
    }
}

pub open spec fn merge_by_cau_upto(tars: Seq<TarView>, n: int) -> Seq<TarView>
    decreases n,
{
    if n <= 0 {
        Seq::empty()
    } else {
        merge_by_cau_step(merge_by_cau_upto(tars, n - 1), tars[n - 1])
    }
}

// Length bounds: each merge pass emits at most one rule per input rule, and
// at least one when there is any input.

pub proof fn lemma_merge_eff_len(tars: Seq<TarView>, n: int)
    requires
        0 <= n,
    ensures
        merge_eff_upto(tars, n).len() <= n,
        n > 0 ==> merge_eff_upto(tars, n).len() >= 1,
    decreases n,
{
    if n > 0 {
        lemma_merge_eff_len(tars, n - 1);
        lemma_first_with_nodes(merge_eff_upto(tars, n - 1), tars[n - 1].nodes);
    }
}

pub proof fn lemma_merge_cau_len(tars: Seq<TarView>, n: int)
    requires
        0 <= n,
    ensures
        merge_cau_upto(tars, n).len() <= n,
        n > 0 ==> merge_cau_upto(tars, n).len() >= 1,
    decreases n,
{
    if n > 0 {
        lemma_merge_cau_len(tars, n - 1);
        lemma_first_with_nodes(merge_cau_upto(tars, n - 1), tars[n - 1].nodes);
    }
}

pub proof fn lemma_merge_by_eff_len(tars: Seq<TarView>, n: int)
    requires
        0 <= n,
    ensures
        merge_by_eff_upto(tars, n).len() <= n,
        n > 0 ==> merge_by_eff_upto(tars, n).len() >= 1,
    decreases n,
{
    if n > 0 {
        lemma_merge_by_eff_len(tars, n - 1);
        lemma_first_with_effect(merge_by_eff_upto(tars, n - 1), tars[n - 1].effect);
    }
}

pub proof fn lemma_merge_by_cau_len(tars: Seq<TarView>, n: int)
    requires
        0 <= n,
    ensures
        merge_by_cau_upto(tars, n).len() <= n,
        n > 0 ==> merge_by_cau_upto(tars, n).len() >= 1,
    decreases n,
{
    if n > 0 {
        lemma_merge_by_cau_len(tars, n - 1);
        lemma_first_with_cause(merge_by_cau_upto(tars, n - 1), tars[n - 1].cause);
    }
}

// The fixed point of phases 2 and 3.

/// Phases 2 and 3 repeated until no pass merges anything; a pass merged
/// exactly when it shortened its list.
pub open spec fn fit_fix(tx: Seq<TarView>, rx: Seq<TarView>) -> (Seq<TarView>, Seq<TarView>)
    decreases tx.len() + rx.len(),
    via fit_fix_decreases
{
    let tx2 = merge_eff_upto(tx, tx.len() as int);
    let rx2 = merge_cau_upto(rx, rx.len() as int);
    let tx3 = merge_by_eff_upto(tx2, tx2.len() as int);
    let rx3 = merge_by_cau_upto(rx2, rx2.len() as int);
    if tx3.len() == tx.len() && rx3.len() == rx.len() {
        (tx3, rx3)
    } else {
        fit_fix(tx3, rx3)
    }
}

#[via_fn]
proof fn fit_fix_decreases(tx: Seq<TarView>, rx: Seq<TarView>) {
    lemma_merge_eff_len(tx, tx.len() as int);
    lemma_merge_cau_len(rx, rx.len() as int);
    let tx2 = merge_eff_upto(tx, tx.len() as int);
    let rx2 = merge_cau_upto(rx, rx.len() as int);
    lemma_merge_by_eff_len(tx2, tx2.len() as int);
    lemma_merge_by_cau_len(rx2, rx2.len() as int);
}

// Phase 4: pair cause-only rules with effect-only rules over a common node
// list; unmatched cause-only rules are appended.

pub open spec fn pair_step(txs: Seq<TarView>, t: TarView) -> Seq<TarView> {
    let j = first_with_nodes(txs, t.nodes);
    if j >= 0 {
        txs.update(j, TarView { nodes: txs[j].nodes, cause: t.cause, effect: txs[j].effect })
    } else {
        txs.push(t)
    }
}

pub open spec fn pair_upto(txs: Seq<TarView>, rxs: Seq<TarView>, n: int) -> Seq<TarView>
    decreases n,
{
    if n <= 0 {
        txs
    } else {
        pair_step(pair_upto(txs, rxs, n - 1), rxs[n - 1])
    }
}

/// The FIT transformation: a fat arrow rule's parts canonicalized into a sum
/// of thin arrow rules.
pub open spec fn fit_far(parts: Seq<ArrowView>) -> Seq<TarView> {
    let tx0 = tx_split(parts, parts.len() as int);
    let rx0 = rx_split(parts, parts.len() as int);
    let fixed = fit_fix(tx0, rx0);
    pair_upto(fixed.0, fixed.1, fixed.1.len() as int)
}

/// Folding one well-formed polynomial into another yields a well-formed
/// polynomial at least as long as the first.
pub proof fn lemma_merge_monos_wf(a: PolyView, b: PolyView)
    requires
        poly_wf(a),
        poly_wf(b),
    ensures
        poly_wf(merge_monos(a, b)),
        merge_monos(a, b).len() >= a.len(),
{
    let r = merge_monos(a, b);
    lemma_add_monos_distinct(a, b, b.len() as int);
    crate::polynomial::lemma_add_monos_len(a, b, b.len() as int);
    assert forall|i: int| 0 <= i < r.len() implies (#[trigger] r[i]).len() > 0 && distinct_names(
        r[i],
    ) by {
        assert(r.contains(r[i]));
        lemma_add_monos_contains(a, b, b.len() as int, r[i]);
        if a.contains(r[i]) {
            let k = choose|k: int| 0 <= k < a.len() && a[k] == r[i];
            assert(a[k].len() > 0 && distinct_names(a[k]));
        } else {
            let k = choose|k: int| 0 <= k < b.len() && b[k] == r[i];
            assert(b[k].len() > 0 && distinct_names(b[k]));
        }
    }
}

/// Folding one distinct node list into another keeps distinctness and
/// cannot shorten the first.
pub proof fn lemma_merge_names_wf(a: Seq<Seq<char>>, b: Seq<Seq<char>>)
    requires
        distinct_names(a),
    ensures
        distinct_names(merge_names(a, b)),
        merge_names(a, b).len() >= a.len(),
{
    lemma_add_names_distinct(a, b, b.len() as int);
    lemma_add_names_len(a, b, b.len() as int);
}

/// Phase 1 emits exactly one effect-only and one cause-only rule per part.
pub proof fn lemma_tx_split_len(parts: Seq<ArrowView>, n: int)
    requires
        0 <= n,
    ensures
        tx_split(parts, n).len() == n,
        rx_split(parts, n).len() == n,
    decreases n,
{
    if n > 0 {
        lemma_tx_split_len(parts, n - 1);
    }
}

/// An effect-only rule as the fixpoint phases see it: well-formed, with a
/// non-empty node list and a non-empty effect polynomial.
pub open spec fn tx_ok(t: TarView) -> bool {
    &&& tar_wf(t)
    &&& t.nodes.len() > 0
    &&& t.effect.len() > 0
}

/// A cause-only rule: well-formed, with a non-empty node list and a
/// non-empty cause polynomial.
pub open spec fn rx_ok(t: TarView) -> bool {
    &&& tar_wf(t)
    &&& t.nodes.len() > 0
    &&& t.cause.len() > 0
}

/// What FIT guarantees of each rule it emits: well-formed, a non-empty node
/// list, and at least one non-empty polynomial.
pub open spec fn fit_tar_ok(t: TarView) -> bool {
    &&& tar_wf(t)
    &&& t.nodes.len() > 0
    &&& t.cause.len() > 0 || t.effect.len() > 0
}

// --- Normalization of a whole slab: every Fat kind becomes a Sum of Thin
// kinds appended right after it ---

/// How many kinds a slab entry becomes: a fat rule turns into one `Sum`
/// followed by its thin rules; everything else is copied.
pub open spec fn block_len(k: KindView) -> int {
    match k {
        KindView::Fat(parts) => 1 + fit_far(parts).len() as int,
        _ => 1,
    }
}

/// Where the `p`-th old kind lands in the normalized slab.
pub open spec fn new_index(ks: Seq<KindView>, p: int) -> int
    decreases p,
{
    if p <= 0 {
        0
    } else {
        new_index(ks, p - 1) + block_len(ks[p - 1])
    }
}

/// Child indices translated to their new positions.
pub open spec fn remap_ids(ks: Seq<KindView>, ids: Seq<RexID>) -> Seq<RexID> {
    Seq::new(ids.len(), |k: int| new_index(ks, ids[k] as int) as RexID)
}

/// A copied kind with its child indices translated; leaves are unchanged.
pub open spec fn remap_kind(ks: Seq<KindView>, k: KindView) -> KindView {
    match k {
        KindView::Product(ids) => KindView::Product(remap_ids(ks, ids)),
        KindView::Sum(ids) => KindView::Sum(remap_ids(ks, ids)),
        _ => k,
    }
}

/// The block a fat kind expands to: a `Sum` whose children are the freshly
/// appended thin rules.
pub open spec fn fat_block(ks: Seq<KindView>, p: int) -> Seq<KindView> {
    let tars = fit_far(ks[p]->Fat_0);
    seq![
        KindView::Sum(Seq::new(tars.len(), |k: int| (new_index(ks, p) + 1 + k) as RexID)),
    ] + tars.map_values(|t: TarView| KindView::Thin(t))
}

/// The normalized form of the first `n` kinds.
pub open spec fn fit_upto(ks: Seq<KindView>, n: int) -> Seq<KindView>
    decreases n,
{
    if n <= 0 {
        Seq::empty()
    } else {
        fit_upto(ks, n - 1) + (if ks[n - 1] is Fat {
            fat_block(ks, n - 1)
        } else {
            seq![remap_kind(ks, ks[n - 1])]
        })
    }
}

/// The normalized form of a slab: every fat rule replaced by a `Sum` of its
/// thin rules, all child indices translated.
pub open spec fn fit_rex(ks: Seq<KindView>) -> Seq<KindView> {
    fit_upto(ks, ks.len() as int)
}

pub open spec fn no_fat(ks: Seq<KindView>) -> bool {
    forall|j: int| 0 <= j < ks.len() ==> !((#[trigger] ks[j]) is Fat)
}

/// The normalized prefix is as long as the new index says.
pub proof fn lemma_fit_upto_len(ks: Seq<KindView>, n: int)
    requires
        0 <= n,
    ensures
        fit_upto(ks, n).len() == new_index(ks, n),
    decreases n,
{
    if n > 0 {
        lemma_fit_upto_len(ks, n - 1);
        if ks[n - 1] is Fat {
            assert(fat_block(ks, n - 1).len() == block_len(ks[n - 1]));
        }
    }
}

/// A normalized prefix is stable: making it longer does not change the
/// kinds already produced.
pub proof fn lemma_fit_upto_prefix(ks: Seq<KindView>, m: int, n: int)
    requires
        0 <= m <= n,
    ensures
        forall|j: int|
            0 <= j < new_index(ks, m) ==> #[trigger] fit_upto(ks, n)[j] == fit_upto(ks, m)[j],
    decreases n - m,
{
    lemma_fit_upto_len(ks, m);
    lemma_fit_upto_len(ks, n);
    if m < n {
        lemma_fit_upto_prefix(ks, m, n - 1);
        lemma_fit_upto_len(ks, n - 1);
        lemma_new_index_mono(ks, m, n - 1);
        assert forall|j: int| 0 <= j < new_index(ks, m) implies #[trigger] fit_upto(ks, n)[j]
            == fit_upto(ks, m)[j] by {
            assert(fit_upto(ks, n)[j] == fit_upto(ks, n - 1)[j]);
        }
    }
}

/// New indices grow strictly with old positions.
pub proof fn lemma_new_index_mono(ks: Seq<KindView>, i: int, j: int)
    requires
        0 <= i <= j,
    ensures
        new_index(ks, i) + (j - i) <= new_index(ks, j),
    decreases j - i,
{
    if i < j {
        lemma_new_index_mono(ks, i, j - 1);
    }
}

/// On a slab without fat kinds every block is a single kind, so positions do
/// not move.
pub proof fn lemma_new_index_id(ks: Seq<KindView>, n: int)
    requires
        0 <= n <= ks.len(),
        forall|k: int| 0 <= k < ks.len() ==> !((#[trigger] ks[k]) is Fat),
    ensures
        new_index(ks, n) == n,
    decreases n,
{
    if n > 0 {
        lemma_new_index_id(ks, n - 1);
    }
}

/// Normalization is the identity on a well-formed slab that already has no
/// fat kinds.  Together with the contract of normalization this makes it
/// idempotent: normalizing a normalized rule expression changes nothing.
pub proof fn lemma_fit_normal_identity(ks: Seq<KindView>)
    requires
        rex_wf(ks),
        no_fat(ks),
    ensures
        fit_rex(ks) == ks,
{
    lemma_fit_upto_identity(ks, ks.len() as int);
    assert(fit_rex(ks) =~= ks);
}

proof fn lemma_fit_upto_identity(ks: Seq<KindView>, n: int)
    requires
        0 <= n <= ks.len(),
        rex_wf(ks),
        no_fat(ks),
    ensures
        fit_upto(ks, n) == ks.take(n),
    decreases n,
{
    if n > 0 {
        lemma_fit_upto_identity(ks, n - 1);
        let k = ks[n - 1];
        assert(!(k is Fat));
        assert(remap_kind(ks, k) == k) by {
            match k {
                KindView::Product(ids) => {
                    assert(kind_is_internal(ks[n - 1]));
                    assert forall|c: int| 0 <= c < ids.len() implies remap_ids(ks, ids)[c] == ids[c] by {
                        assert(0 < ids[c] < ks.len());
                        lemma_new_index_id(ks, ids[c] as int);
                    }
                    assert(remap_ids(ks, ids) =~= ids);
                },
                KindView::Sum(ids) => {
                    assert(kind_is_internal(ks[n - 1]));
                    assert forall|c: int| 0 <= c < ids.len() implies remap_ids(ks, ids)[c] == ids[c] by {
                        assert(0 < ids[c] < ks.len());
                        lemma_new_index_id(ks, ids[c] as int);
                    }
                    assert(remap_ids(ks, ids) =~= ids);
                },
                _ => {},
            }
        }
        assert(fit_upto(ks, n) =~= ks.take(n));
    } else {
        assert(fit_upto(ks, n) =~= ks.take(n));
    }
}

} // verus!
