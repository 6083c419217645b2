use vstd::prelude::*;
use crate::AscesisError;
use crate::content::Context;
use crate::content::ContentView;
use crate::content::CtxView;
use crate::content::NodeID;
use crate::content::PartialContent;
use crate::content::content_add;
use crate::content::content_mul;
use crate::content::empty_content;
use crate::content::entry_add;
use crate::content::first_name;
use crate::content::intern_id;
use crate::content::intern_tbl;
use crate::fit::fit_rex;
use crate::fit::lemma_fit_normal_identity;
use crate::fit::no_fat;
use crate::polynomial::Polynomial;
use crate::polynomial::lemma_poly_rep;
use crate::rex::KindView;
use crate::rex::Rex;
use crate::rex::RexID;
use crate::rex::RexKind;
use crate::rex::TarView;
use crate::rex::ThinArrowRule;
use crate::rex::kind_children;
use crate::rex::kind_is_internal;
use crate::rex::rex_wf;

verus! {

// --- Specification of compilation ---

/// The intern table and ids after interning the first `k` names of a
/// monomial.
pub open spec fn intern_mono(nodes: Seq<Seq<char>>, mono: Seq<Seq<char>>, k: int) -> (
    Seq<Seq<char>>,
    Seq<NodeID>,
)
    decreases k,
{
    if k <= 0 {
        (nodes, Seq::empty())
    } else {
        let prev = intern_mono(nodes, mono, k - 1);
        (intern_tbl(prev.0, mono[k - 1]), prev.1.push(intern_id(prev.0, mono[k - 1]) as NodeID))
    }
}

/// The intern table and id monomials after interning the first `n`
/// monomials of a polynomial.
pub open spec fn intern_poly(nodes: Seq<Seq<char>>, poly: Seq<Seq<Seq<char>>>, n: int) -> (
    Seq<Seq<char>>,
    Seq<Seq<NodeID>>,
)
    decreases n,
{
    if n <= 0 {
        (nodes, Seq::empty())
    } else {
        let prev = intern_poly(nodes, poly, n - 1);
        let m = intern_mono(prev.0, poly[n - 1], poly[n - 1].len() as int);
        (m.0, prev.1.push(m.1))
    }
}

/// The fold over the first `k` nodes of a thin rule: each node is interned
/// and the compiled cause and effect polynomials are attached to it.
pub open spec fn tar_nodes_fold(
    nodes: Seq<Seq<char>>,
    c: ContentView,
    tnodes: Seq<Seq<char>>,
    cids: Seq<Seq<NodeID>>,
    eids: Seq<Seq<NodeID>>,
    k: int,
) -> (Seq<Seq<char>>, ContentView)
    decreases k,
{
    if k <= 0 {
        (nodes, c)
    } else {
        let prev = tar_nodes_fold(nodes, c, tnodes, cids, eids, k - 1);
        let id = intern_id(prev.0, tnodes[k - 1]) as NodeID;
        let nodes2 = intern_tbl(prev.0, tnodes[k - 1]);
        let c1 = if cids.len() > 0 {
            ContentView { causes: entry_add(prev.1.causes, id, cids), effects: prev.1.effects }
        } else {
            prev.1
        };
        let c2 = if eids.len() > 0 {
            ContentView { causes: c1.causes, effects: entry_add(c1.effects, id, eids) }
        } else {
            c1
        };
        (nodes2, c2)
    }
}

/// Compiling a thin arrow rule: its polynomials become id polynomials, and
/// each of its nodes gets the non-empty sides attached.
pub open spec fn tar_content(nodes: Seq<Seq<char>>, t: TarView) -> (Seq<Seq<char>>, ContentView) {
    let pc = intern_poly(nodes, t.cause, t.cause.len() as int);
    let pe = intern_poly(pc.0, t.effect, t.effect.len() as int);
    tar_nodes_fold(pe.0, empty_content(), t.nodes, pc.1, pe.1, t.nodes.len() as int)
}

/// The errors compilation can end in.
pub enum CompErrView {
    /// The slab violates the tree invariants.
    Invalid,
    /// A fat rule reached the compiler: the caller forgot to normalize.
    FatLeak,
    /// An instance name absent from the context.
    Missing(Seq<char>),
}

/// The parent position of `c`: the last internal node listing `c` among its
/// children, as the forward scan records it.
pub open spec fn parent_upto(ks: Seq<KindView>, c: int, n: int) -> int
    decreases n,
{
    if n <= 0 {
        0
    } else if kind_is_internal(ks[n - 1]) && kind_children(ks[n - 1]).contains(c as RexID) {
        n - 1
    } else {
        parent_upto(ks, c, n - 1)
    }
}

pub open spec fn parent_of(ks: Seq<KindView>, c: int) -> int {
    parent_upto(ks, c, ks.len() as int)
}

/// Compiling one slab position: a thin rule compiles; an instance looks its
/// content up; a sum or product takes its accumulated slot.
pub open spec fn kind_step(
    ks: Seq<KindView>,
    pos: int,
    bnames: Seq<Seq<char>>,
    bconts: Seq<ContentView>,
    nodes: Seq<Seq<char>>,
    merged: Map<int, ContentView>,
) -> Result<(Seq<Seq<char>>, ContentView), CompErrView> {
    match ks[pos] {
        KindView::Thin(t) => Ok(tar_content(nodes, t)),
        KindView::Fat(_) => Err(CompErrView::FatLeak),
        KindView::Instance(inst) => {
            let j = first_name(bnames, inst.name);
            if j >= 0 {
                Ok((nodes, bconts[j]))
            } else {
                Err(CompErrView::Missing(inst.name))
            }
        },
        KindView::Product(_) => Ok((nodes, merged[pos])),
        KindView::Sum(_) => Ok((nodes, merged[pos])),
    }
}

/// The post-order fold, from position `pos` down to the root: each position
/// compiles and is combined into its parent's slot, multiplicatively under a
/// product, additively under a sum.  The second component is the intern
/// table as it stands when the fold stops.
pub open spec fn fold_from(
    ks: Seq<KindView>,
    bnames: Seq<Seq<char>>,
    bconts: Seq<ContentView>,
    nodes: Seq<Seq<char>>,
    merged: Map<int, ContentView>,
    pos: int,
) -> (Result<ContentView, CompErrView>, Seq<Seq<char>>)
    decreases pos + 1,
{
    if pos < 0 {
        (Err(CompErrView::Invalid), nodes)
    } else {
        match kind_step(ks, pos, bnames, bconts, nodes, merged) {
            Err(e) => (Err(e), nodes),
            Ok(st) => {
                if pos == 0 {
                    (Ok(st.1), st.0)
                } else {
                    let par = parent_of(ks, pos);
                    if merged.contains_key(par) && (ks[par] is Product || ks[par] is Sum) {
                        let pc = merged[par];
                        let pc2 = if ks[par] is Product {
                            content_mul(pc, st.1)
                        } else {
                            content_add(pc, st.1)
                        };
                        fold_from(ks, bnames, bconts, st.0, merged.insert(par, pc2), pos - 1)
                    } else {
                        (Err(CompErrView::Invalid), st.0)
                    }
                }
            },
        }
    }
}

/// The slots the fold starts from: one empty content per internal node.
pub open spec fn init_merged(ks: Seq<KindView>) -> Map<int, ContentView> {
    Map::new(|i: int| 0 <= i < ks.len() && kind_is_internal(ks[i]), |i: int| empty_content())
}

/// What compiling a normalized slab against a context yields, and the
/// intern table it leaves behind.
pub open spec fn compile_rex(nf: Seq<KindView>, cx: CtxView) -> (
    Result<ContentView, CompErrView>,
    Seq<Seq<char>>,
) {
    if nf.len() == 0 {
        (Ok(empty_content()), cx.nodes)
    } else {
        fold_from(nf, cx.names, cx.contents, cx.nodes, init_merged(nf), nf.len() as int - 1)
    }
}

/// The first instance, in slab order, whose name has no content bound.
pub open spec fn first_missing(ks: Seq<KindView>, bnames: Seq<Seq<char>>, n: int) -> Option<
    Seq<char>,
>
    decreases n,
{
    if n <= 0 {
        None
    } else {
        match first_missing(ks, bnames, n - 1) {
            Some(name) => Some(name),
            None => match ks[n - 1] {
                KindView::Instance(inst) => if first_name(bnames, inst.name) < 0 {
                    Some(inst.name)
                } else {
                    None
                },
                _ => None,
            },
        }
    }
}

pub proof fn lemma_first_missing_mono(ks: Seq<KindView>, bnames: Seq<Seq<char>>, m: int, n: int)
    requires
        m <= n,
        first_missing(ks, bnames, m) is Some,
    ensures
        first_missing(ks, bnames, n) == first_missing(ks, bnames, m),
    decreases n - m,
{
    if m < n {
        lemma_first_missing_mono(ks, bnames, m, n - 1);
    }
}

/// Compiling a rule expression and compiling its normal form against the
/// same context yield the same content: normalizing a normalized slab
/// changes nothing, and the compiler normalizes before folding.
pub proof fn lemma_compile_after_normalization(ks: Seq<KindView>, cx: CtxView)
    requires
        rex_wf(ks),
        no_fat(ks),
    ensures
        compile_rex(fit_rex(ks), cx) == compile_rex(ks, cx),
{
    lemma_fit_normal_identity(ks);
}

// --- Executable compilation ---

impl Polynomial {
    /// Compiles this polynomial to monomials of node ids, interning each
    /// name through the context.
    pub fn compile_as_vec(&self, ctx: &mut Context) -> (r: Vec<Vec<NodeID>>)
        ensures
            ({
                let ip = intern_poly(old(ctx)@.nodes, self@, self@.len() as int);
                &&& final(ctx)@.nodes == ip.0
                &&& r.deep_view() == ip.1
            }),
            final(ctx)@.names == old(ctx)@.names,
            final(ctx)@.contents == old(ctx)@.contents,
            r.deep_view().len() == self@.len(),
    {
        let ghost nodes0 = ctx@.nodes;
        proof {
            lemma_poly_rep(self);
        }
        let mut r: Vec<Vec<NodeID>> = Vec::new();
        let mut i: usize = 0;
        while i < self.monomials.len()
            invariant
                0 <= i <= self.monomials@.len(),
                self@ == self.monomials.deep_view(),
                self@.len() == self.monomials@.len(),
                nodes0 == old(ctx)@.nodes,
                ctx@.nodes == intern_poly(nodes0, self@, i as int).0,
                r.deep_view() == intern_poly(nodes0, self@, i as int).1,
                r@.len() == i,
                ctx@.names == old(ctx)@.names,
                ctx@.contents == old(ctx)@.contents,
            decreases self.monomials@.len() - i,
        {
            let mono = &self.monomials[i];
            proof {
                assert(mono.deep_view() == self@[i as int]);
            }
            let ghost mstart = ctx@.nodes;
            let mut ids: Vec<NodeID> = Vec::new();
            let mut j: usize = 0;
            while j < mono.len()
                invariant
                    0 <= j <= mono@.len(),
                    mono.deep_view() == self@[i as int],
                    0 <= i < self@.len(),
                    ctx@.nodes == intern_mono(mstart, self@[i as int], j as int).0,
                    ids@ == intern_mono(mstart, self@[i as int], j as int).1,
                    ctx@.names == old(ctx)@.names,
                    ctx@.contents == old(ctx)@.contents,
                decreases mono@.len() - j,
            {
                proof {
                    assert(mono.deep_view()[j as int] == mono@[j as int]@);
                }
                let id = ctx.share_node_name(mono[j].as_str());
                ids.push(id);
                proof {
                    assert(ids@ =~= intern_mono(mstart, self@[i as int], j + 1).1);
                }
                j += 1;
            }
            r.push(ids);
            proof {
                assert(r.deep_view() =~~= intern_poly(nodes0, self@, i + 1).1);
            }
            i += 1;
        }
        r
    }
}

impl ThinArrowRule {
    /// Compiles this rule: both polynomials become id monomials, and every
    /// node of the rule gets the non-empty sides attached to it.
    pub fn get_compiled_content(&self, ctx: &mut Context) -> (r: PartialContent)
        ensures
            ({
                let tc = tar_content(old(ctx)@.nodes, self@);
                &&& final(ctx)@.nodes == tc.0
                &&& r@ == tc.1
            }),
            final(ctx)@.names == old(ctx)@.names,
            final(ctx)@.contents == old(ctx)@.contents,
    {
        let ghost nodes0 = ctx@.nodes;
        let cause = self.get_cause().compile_as_vec(ctx);
        let effect = self.get_effect().compile_as_vec(ctx);
        let ghost pc = intern_poly(nodes0, self@.cause, self@.cause.len() as int);
        let ghost pe = intern_poly(pc.0, self@.effect, self@.effect.len() as int);
        proof {
            assert(cause.deep_view() == pc.1);
            assert(effect.deep_view() == pe.1);
            assert(ctx@.nodes == pe.0);
        }
        let mut content = PartialContent::new();
        let nodes = self.get_nodes();
        let mut k: usize = 0;
        while k < nodes.len()
            invariant
                0 <= k <= nodes@.len(),
                nodes.deep_view() == self@.nodes,
                nodes@.len() == self@.nodes.len(),
                cause.deep_view() == pc.1,
                effect.deep_view() == pe.1,
                cause@.len() == pc.1.len(),
                effect@.len() == pe.1.len(),
                ({
                    let st = tar_nodes_fold(pe.0, empty_content(), self@.nodes, pc.1, pe.1, k as int);
                    ctx@.nodes == st.0 && content@ == st.1
                }),
                ctx@.names == old(ctx)@.names,
                ctx@.contents == old(ctx)@.contents,
            decreases nodes@.len() - k,
        {
            proof {
                assert(nodes.deep_view()[k as int] == nodes@[k as int]@);
            }
            let id = ctx.share_node_name(nodes[k].as_str());
            if cause.len() > 0 {
                content.add_to_causes(id, &cause);
            }
            if effect.len() > 0 {
                content.add_to_effects(id, &effect);
            }
            k += 1;
        }
        content
    }
}

/// View of the fold slots held by the compiler.
pub open spec fn merged_view(s: Seq<Option<PartialContent>>) -> Map<int, ContentView> {
    Map::new(|i: int| 0 <= i < s.len() && s[i] is Some, |i: int| s[i]->0@)
}

impl Rex {
    /// Returns the name of the first instance whose content the context does
    /// not hold, or nothing when every instance resolves.
    pub fn check_dependencies(&self, ctx: &Context) -> (r: Option<String>)
        ensures
            ({
                let fm = first_missing(self@, ctx@.names, self@.len() as int);
                match r {
                    Some(name) => fm is Some && name@ == fm->0,
                    None => fm is None,
                }
            }),
    {
        let ks = self.get_kinds();
        let mut i: usize = 0;
        while i < ks.len()
            invariant
                0 <= i <= ks@.len(),
                ks.deep_view() == self@,
                ks@.len() == self@.len(),
                first_missing(self@, ctx@.names, i as int) is None,
            decreases ks@.len() - i,
        {
            proof {
                assert(ks.deep_view()[i as int] == ks@[i as int]@);
            }
            match &ks[i] {
                RexKind::Instance(inst) => {
                    if !ctx.has_content(inst.get_name()) {
                        proof {
                            assert(first_missing(self@, ctx@.names, i + 1) == Some(
                                inst@.name,
                            ));
                            lemma_first_missing_mono(self@, ctx@.names, i + 1, self@.len() as int);
                        }
                        return Some(inst.get_name().to_owned());
                    }
                },
                _ => {},
            }
            i += 1;
        }
        None
    }

    /// Compiles this rule expression against a context: it is first brought
    /// to the normal form, then lowered by a post-order fold that multiplies
    /// under products, adds under sums, compiles thin rules, and resolves
    /// instances against the context's bindings.  The result is a function
    /// of the expression and the context alone.
    pub fn get_compiled_content(&self, ctx: &mut Context) -> (r: Result<
        PartialContent,
        AscesisError,
    >)
        requires
            self.wf(),
            old(ctx).wf(),
        ensures
            final(ctx).wf(),
            final(ctx)@.names == old(ctx)@.names,
            final(ctx)@.contents == old(ctx)@.contents,
            final(ctx)@.nodes == compile_rex(fit_rex(self@), old(ctx)@).1,
            fit_rex(self@).len() == 0 ==> final(ctx)@ == old(ctx)@,
            ({
                let res = compile_rex(fit_rex(self@), old(ctx)@).0;
                match r {
                    Ok(c) => res is Ok && c@ == res->Ok_0,
                    Err(e) => res is Err && (match res->Err_0 {
                        CompErrView::Invalid => e is InvalidAST,
                        CompErrView::FatLeak => e is FatLeak,
                        CompErrView::Missing(n) => e is UnexpectedDependency
                            && e->UnexpectedDependency_0@ == n,
                    }),
                }
            }),
    {
        let rex = self.fit_clone();
        let ghost nf = fit_rex(self@);
        let n = rex.len();
        if n == 0 {
            proof {
                assert(final(ctx)@ =~~= old(ctx)@);
            }
            return Ok(PartialContent::new());
        }
        let ghost names0 = ctx@.names;
        let ghost conts0 = ctx@.contents;
        let ghost nodes0 = ctx@.nodes;
        let ks = rex.get_kinds();
        proof {
            assert(ks.deep_view() == nf);
        }

        // Parent map and empty slots for every internal node.
        let mut parent_pos: Vec<usize> = Vec::new();
        let mut merged: Vec<Option<PartialContent>> = Vec::new();
        let mut q: usize = 0;
        while q < n
            invariant
                0 <= q <= n,
                parent_pos@.len() == q,
                merged@.len() == q,
                forall|w: int| 0 <= w < q ==> (#[trigger] parent_pos@[w]) == 0,
                forall|w: int| 0 <= w < q ==> (#[trigger] merged@[w]) is None,
            decreases n - q,
        {
            parent_pos.push(0);
            merged.push(None);
            q += 1;
        }
        let mut p: usize = 0;
        while p < n
            invariant
                0 <= p <= n,
                n == nf.len(),
                ks.deep_view() == nf,
                ks@.len() == n,
                rex_wf(nf),
                parent_pos@.len() == n,
                merged@.len() == n,
                forall|c: int|
                    0 <= c < n ==> (#[trigger] parent_pos@[c]) as int == parent_upto(
                        nf,
                        c,
                        p as int,
                    ),
                forall|c: int| 0 <= c < n ==> (#[trigger] parent_pos@[c]) < n,
                forall|w: int|
                    0 <= w < n ==> ((#[trigger] merged@[w]) is Some <==> (w < p
                        && kind_is_internal(nf[w]))),
                forall|w: int|
                    0 <= w < n && merged@[w] is Some ==> (#[trigger] merged@[w])->0@
                        == empty_content(),
            decreases n - p,
        {
            proof {
                assert(ks.deep_view()[p as int] == ks@[p as int]@);
            }
            let is_internal = match &ks[p] {
                RexKind::Product(_) => true,
                RexKind::Sum(_) => true,
                _ => false,
            };
            if is_internal {
                merged[p] = Some(PartialContent::new());
                let tree = match &ks[p] {
                    RexKind::Product(tree) => tree,
                    RexKind::Sum(tree) => tree,
                    _ => {
                        proof {
                            assert(false);
                        }
                        match &ks[p] {
                            RexKind::Product(tree) => tree,
                            _ => unreached(),
                        }
                    },
                };
                let cs = tree.as_slice();
                proof {
                    assert(cs@ == kind_children(nf[p as int]));
                }
                let mut w: usize = 0;
                while w < cs.len()
                    invariant
                        0 <= w <= cs@.len(),
                        cs@ == kind_children(nf[p as int]),
                        kind_is_internal(nf[p as int]),
                        0 <= p < n,
                        n == nf.len(),
                        rex_wf(nf),
                        parent_pos@.len() == n,
                        merged@.len() == n,
                        forall|c: int|
                            0 <= c < n ==> (#[trigger] parent_pos@[c]) as int == (
                            if kind_children(nf[p as int]).take(w as int).contains(c as RexID) {
                                p as int
                            } else {
                                parent_upto(nf, c, p as int)
                            }),
                        forall|c: int| 0 <= c < n ==> (#[trigger] parent_pos@[c]) < n,
                        forall|x: int|
                            0 <= x < n ==> ((#[trigger] merged@[x]) is Some <==> (x < p + 1
                                && kind_is_internal(nf[x]))),
                        forall|x: int|
                            0 <= x < n && merged@[x] is Some ==> (#[trigger] merged@[x])->0@
                                == empty_content(),
                    decreases cs@.len() - w,
                {
                    let c = cs[w];
                    proof {
                        assert(kind_children(nf[p as int])[w as int] == c);
                        assert((p as int) < c < nf.len());
                        assert(kind_children(nf[p as int]).take(w + 1).contains(c as RexID)) by {
                            assert(kind_children(nf[p as int]).take(w + 1)[w as int] == c);
                        }
                    }
                    parent_pos[c] = p;
                    proof {
                        assert forall|x: int|
                            0 <= x < n implies (#[trigger] parent_pos@[x]) as int == (
                        if kind_children(nf[p as int]).take(w + 1).contains(x as RexID) {
                            p as int
                        } else {
                            parent_upto(nf, x, p as int)
                        }) by {
                            if x != c {
                                if kind_children(nf[p as int]).take(w + 1).contains(x as RexID) {
                                    let t = choose|t: int|
                                        0 <= t < w + 1 && #[trigger] kind_children(
                                            nf[p as int],
                                        ).take(w + 1)[t] == x as RexID;
                                    if t < w {
                                        assert(kind_children(nf[p as int]).take(w as int)[t] == x as RexID);
                                        assert(kind_children(nf[p as int]).take(w as int).contains(
                                            x as RexID,
                                        ));
                                    }
                                } else {
                                    if kind_children(nf[p as int]).take(w as int).contains(
                                        x as RexID,
                                    ) {
                                        let t = choose|t: int|
                                            0 <= t < w && #[trigger] kind_children(
                                                nf[p as int],
                                            ).take(w as int)[t] == x as RexID;
                                        assert(kind_children(nf[p as int]).take(w + 1)[t] == x as RexID);
                                    }
                                }
                            }
                        }
                    }
                    w += 1;
                }
                proof {
                    assert(kind_children(nf[p as int]).take(cs@.len() as int) =~= kind_children(
                        nf[p as int],
                    ));
                    assert forall|c: int|
                        0 <= c < n implies (#[trigger] parent_pos@[c]) as int == parent_upto(
                        nf,
                        c,
                        p + 1,
                    ) by {
                        if kind_children(nf[p as int]).contains(c as RexID) {
                            assert(kind_children(nf[p as int]).take(cs@.len() as int).contains(
                                c as RexID,
                            ));
                        } else {
                            assert(!kind_children(nf[p as int]).take(cs@.len() as int).contains(
                                c as RexID,
                            ));
                        }
                    }
                }
            } else {
                proof {
                    assert(!kind_is_internal(nf[p as int]));
                    assert forall|c: int|
                        0 <= c < n implies (#[trigger] parent_pos@[c]) as int == parent_upto(
                        nf,
                        c,
                        p + 1,
                    ) by {}
                }
            }
            p += 1;
        }
        proof {
            assert(merged_view(merged@) =~= init_merged(nf));
        }

        // The post-order fold, from the last position down to the root.
        let mut pos: usize = n;
        while pos > 0
            invariant
                1 <= pos <= n,
                n == nf.len(),
                nf == fit_rex(self@),
                ks.deep_view() == nf,
                ks@.len() == n,
                rex_wf(nf),
                ctx.wf(),
                old(ctx).wf(),
                names0 == old(ctx)@.names,
                conts0 == old(ctx)@.contents,
                nodes0 == old(ctx)@.nodes,
                (CtxView { nodes: nodes0, names: names0, contents: conts0 }) == old(ctx)@,
                ctx@.names == names0,
                ctx@.contents == conts0,
                parent_pos@.len() == n,
                merged@.len() == n,
                forall|c: int|
                    0 <= c < n ==> (#[trigger] parent_pos@[c]) as int == parent_of(nf, c),
                forall|c: int| 0 <= c < n ==> (#[trigger] parent_pos@[c]) < n,
                forall|w: int|
                    0 <= w < n && kind_is_internal(#[trigger] nf[w]) ==> merged@[w] is Some,
                compile_rex(nf, CtxView { nodes: nodes0, names: names0, contents: conts0 })
                    == fold_from(
                    nf,
                    names0,
                    conts0,
                    ctx@.nodes,
                    merged_view(merged@),
                    pos as int - 1,
                ),
            decreases pos,
        {
            let p = pos - 1;
            proof {
                assert(ks.deep_view()[p as int] == ks@[p as int]@);
            }
            let ghost mv = merged_view(merged@);
            let step_content: PartialContent = match &ks[p] {
                RexKind::Thin(tar) => tar.get_compiled_content(ctx),
                RexKind::Fat(_) => {
                    return Err(AscesisError::FatLeak);
                },
                RexKind::Instance(inst) => {
                    match ctx.get_content(inst.get_name()) {
                        Some(c) => c,
                        None => {
                            return Err(
                                AscesisError::UnexpectedDependency(inst.get_name().to_owned()),
                            );
                        },
                    }
                },
                _ => {
                    let slot = merged[p].take();
                    match slot {
                        Some(c) => {
                            let cc = c.clone();
                            merged[p] = Some(c);
                            proof {
                                assert(merged_view(merged@) =~= mv);
                            }
                            cc
                        },
                        None => {
                            return Err(AscesisError::InvalidAST);
                        },
                    }
                },
            };
            if p == 0 {
                return Ok(step_content);
            }
            let par = parent_pos[p];
            let is_product = match &ks[par] {
                RexKind::Product(_) => true,
                RexKind::Sum(_) => false,
                _ => {
                    return Err(AscesisError::InvalidAST);
                },
            };
            proof {
                assert(ks.deep_view()[par as int] == ks@[par as int]@);
            }
            let slot = merged[par].take();
            match slot {
                Some(mut pc) => {
                    if is_product {
                        pc.mul_assign(&step_content);
                    } else {
                        pc.add_assign(&step_content);
                    }
                    let ghost pcv = pc@;
                    merged[par] = Some(pc);
                    proof {
                        assert(merged_view(merged@) =~= mv.insert(par as int, pcv));
                    }
                },
                None => {
                    return Err(AscesisError::InvalidAST);
                },
            }
            pos -= 1;
        }
        proof {
            assert(false);
        }
        Err(AscesisError::InvalidAST)
    }
}

} // verus!
