use vstd::prelude::*;
use crate::AscesisError;
use crate::BinOp;
use crate::ces::CesInstance;
use crate::ces::InstanceView;
use crate::polynomial::NodeList;
use crate::polynomial::Polynomial;
use crate::polynomial::Node;
use crate::polynomial::poly_wf;
use crate::polynomial::distinct_names;
use crate::fit::fat_block;
use crate::fit::fit_rex;
use crate::fit::fit_upto;
use crate::fit::lemma_fit_upto_len;
use crate::fit::lemma_fit_upto_prefix;
use crate::fit::lemma_new_index_mono;
use crate::fit::new_index;
use crate::fit::no_fat;
use crate::fit::remap_ids;
use crate::fit::remap_kind;
use crate::fit::far_parts;
use crate::fit::fit_far;
use crate::fit::fit_fix;
use crate::fit::fit_tar_ok;
use crate::fit::first_with_cause;
use crate::fit::first_with_effect;
use crate::fit::first_with_nodes;
use crate::fit::lemma_first_with_cause;
use crate::fit::lemma_first_with_effect;
use crate::fit::lemma_first_with_nodes;
use crate::fit::lemma_merge_eff_len;
use crate::fit::lemma_merge_cau_len;
use crate::fit::lemma_merge_by_eff_len;
use crate::fit::lemma_merge_by_cau_len;
use crate::fit::lemma_merge_monos_wf;
use crate::fit::lemma_merge_names_wf;
use crate::fit::merge_by_cau_step;
use crate::fit::merge_by_cau_upto;
use crate::fit::merge_by_eff_step;
use crate::fit::merge_by_eff_upto;
use crate::fit::merge_cau_step;
use crate::fit::merge_cau_upto;
use crate::fit::merge_eff_step;
use crate::fit::merge_eff_upto;
use crate::fit::pair_step;
use crate::fit::pair_upto;
use crate::fit::parts_upto;
use crate::fit::prev_poly;
use crate::fit::rx_ok;
use crate::fit::rx_split;
use crate::fit::step_arrows;
use crate::fit::tail_view;
use crate::fit::tx_ok;
use crate::fit::tx_split;
use crate::polynomial::lemma_flatten_upto_len;

verus! {

/// An index into the slab of kinds of a `Rex`.
pub type RexID = usize;

/// A list of children of a `Sum` or `Product` node, by absolute index into
/// the enclosing slab.
#[derive(Debug)]
pub struct RexTree {
    pub(crate) ids: Vec<RexID>,
}

impl View for RexTree {
    type V = Seq<RexID>;

    closed spec fn view(&self) -> Seq<RexID> {
        self.ids@
    }
}

impl RexTree {
    pub fn as_slice(&self) -> (r: &[RexID])
        ensures
            r@ == self@,
    {
        self.ids.as_slice()
    }

    pub fn from_ids(ids: Vec<RexID>) -> (r: RexTree)
        ensures
            r@ == ids@,
    {
        RexTree { ids }
    }
}

impl Clone for RexTree {
    fn clone(&self) -> (r: Self)
        ensures
            r@ == self@,
    {
        let mut ids: Vec<RexID> = Vec::new();
        let mut i: usize = 0;
        while i < self.ids.len()
            invariant
                0 <= i <= self.ids.len(),
                ids@ =~= self.ids@.take(i as int),
            decreases self.ids.len() - i,
        {
            ids.push(self.ids[i]);
            i += 1;
        }
        let r = RexTree { ids };
        proof {
            assert(r@ =~= self@);
        }
        r
    }
}

impl PartialEq for RexTree {
    fn eq(&self, other: &Self) -> (r: bool) {
        ids_eq(&self.ids, &other.ids)
    }
}

impl vstd::std_specs::cmp::PartialEqSpecImpl for RexTree {
    open spec fn obeys_eq_spec() -> bool {
        true
    }

    open spec fn eq_spec(&self, other: &RexTree) -> bool {
        self@ == other@
    }
}

pub(crate) fn ids_eq(a: &Vec<RexID>, b: &Vec<RexID>) -> (r: bool)
    ensures
        r == (a@ == b@),
{
    if a.len() != b.len() {
        return false;
    }
    let mut i: usize = 0;
    while i < a.len()
        invariant
            0 <= i <= a.len(),
            a.len() == b.len(),
            forall|k: int| 0 <= k < i ==> a@[k] == b@[k],
        decreases a.len() - i,
    {
        if a[i] != b[i] {
            return false;
        }
        i += 1;
    }
    proof {
        assert(a@ =~= b@);
    }
    true
}

// --- Thin arrow rules ---

/// View of a thin arrow rule: node names, cause polynomial, effect polynomial.
#[verifier::ext_equal]
pub struct TarView {
    pub nodes: Seq<Seq<char>>,
    pub cause: Seq<Seq<Seq<char>>>,
    pub effect: Seq<Seq<Seq<char>>>,
}

/// An atomic rule `nodes: cause -> effect`; either polynomial may be empty.
#[derive(Debug)]
pub struct ThinArrowRule {
    pub(crate) nodes: NodeList,
    pub(crate) cause: Polynomial,
    pub(crate) effect: Polynomial,
}

impl View for ThinArrowRule {
    type V = TarView;

    closed spec fn view(&self) -> TarView {
        TarView { nodes: self.nodes@, cause: self.cause@, effect: self.effect@ }
    }
}

impl DeepView for ThinArrowRule {
    type V = TarView;

    open spec fn deep_view(&self) -> TarView {
        self@
    }
}

pub open spec fn tar_wf(t: TarView) -> bool {
    &&& distinct_names(t.nodes)
    &&& poly_wf(t.cause)
    &&& poly_wf(t.effect)
}

impl ThinArrowRule {
    pub open spec fn wf(&self) -> bool {
        tar_wf(self@)
    }

    pub fn new() -> (r: ThinArrowRule)
        ensures
            r@.nodes == Seq::<Seq<char>>::empty(),
            r@.cause == Seq::<Seq<Seq<char>>>::empty(),
            r@.effect == Seq::<Seq<Seq<char>>>::empty(),
            r.wf(),
    {
        ThinArrowRule { nodes: NodeList::new(), cause: Polynomial::new(), effect: Polynomial::new() }
    }

    /// Replaces the node list with `nodes` read as a node list; fails with
    /// `NotANodeList` exactly when `nodes` is not a single monomial.
    pub fn with_nodes(self, nodes: Polynomial) -> (r: Result<ThinArrowRule, AscesisError>)
        requires
            nodes.wf(),
        ensures
            r is Ok <==> nodes@.len() == 1,
            r is Ok ==> r->Ok_0@.nodes == nodes@[0] && r->Ok_0@.cause == self@.cause
                && r->Ok_0@.effect == self@.effect,
            r is Ok && self.wf() ==> r->Ok_0.wf(),
            r is Err ==> r->Err_0 is NotANodeList,
    {
        match nodes.try_into_node_list() {
            Ok(nl) => Ok(ThinArrowRule { nodes: nl, cause: self.cause, effect: self.effect }),
            Err(e) => Err(e),
        }
    }

    pub fn with_cause(self, cause: Polynomial) -> (r: ThinArrowRule)
        ensures
            r@.nodes == self@.nodes,
            r@.cause == cause@,
            r@.effect == self@.effect,
    {
        ThinArrowRule { nodes: self.nodes, cause, effect: self.effect }
    }

    pub fn with_effect(self, effect: Polynomial) -> (r: ThinArrowRule)
        ensures
            r@.nodes == self@.nodes,
            r@.cause == self@.cause,
            r@.effect == effect@,
    {
        ThinArrowRule { nodes: self.nodes, cause: self.cause, effect }
    }

    pub fn get_nodes(&self) -> (r: &[Node])
        ensures
            r.deep_view() == self@.nodes,
    {
        self.nodes.get_nodes()
    }

    pub fn get_cause(&self) -> (r: &Polynomial)
        ensures
            r@ == self@.cause,
    {
        &self.cause
    }

    pub fn get_effect(&self) -> (r: &Polynomial)
        ensures
            r@ == self@.effect,
    {
        &self.effect
    }
}

impl Clone for ThinArrowRule {
    fn clone(&self) -> (r: Self)
        ensures
            r@ == self@,
    {
        let r = ThinArrowRule {
            nodes: self.nodes.clone(),
            cause: self.cause.clone(),
            effect: self.effect.clone(),
        };
        proof {
            assert(r@.nodes == self@.nodes);
        }
        r
    }
}

impl PartialEq for ThinArrowRule {
    fn eq(&self, other: &Self) -> (r: bool) {
        self.nodes.eq(&other.nodes) && self.cause.eq(&other.cause) && self.effect.eq(
            &other.effect,
        )
    }
}

impl vstd::std_specs::cmp::PartialEqSpecImpl for ThinArrowRule {
    open spec fn obeys_eq_spec() -> bool {
        true
    }

    open spec fn eq_spec(&self, other: &ThinArrowRule) -> bool {
        self@.nodes == other@.nodes && self@.cause == other@.cause && self@.effect == other@.effect
    }
}

// --- Fat arrow rules ---

/// View of one two-polynomial part of a fat arrow rule.
#[verifier::ext_equal]
pub struct ArrowView {
    pub cause: Seq<Seq<Seq<char>>>,
    pub effect: Seq<Seq<Seq<char>>>,
}

/// One two-polynomial part of a fat arrow rule.
#[derive(Debug)]
pub struct FatArrow {
    pub(crate) cause: Polynomial,
    pub(crate) effect: Polynomial,
}

impl View for FatArrow {
    type V = ArrowView;

    closed spec fn view(&self) -> ArrowView {
        ArrowView { cause: self.cause@, effect: self.effect@ }
    }
}

impl DeepView for FatArrow {
    type V = ArrowView;

    open spec fn deep_view(&self) -> ArrowView {
        self@
    }
}

pub open spec fn arrow_wf(a: ArrowView) -> bool {
    &&& poly_wf(a.cause)
    &&& a.cause.len() > 0
    &&& poly_wf(a.effect)
    &&& a.effect.len() > 0
}

impl FatArrow {
    pub fn new(cause: Polynomial, effect: Polynomial) -> (r: FatArrow)
        ensures
            r@.cause == cause@,
            r@.effect == effect@,
    {
        FatArrow { cause, effect }
    }
}

impl Clone for FatArrow {
    fn clone(&self) -> (r: Self)
        ensures
            r@ == self@,
    {
        let r = FatArrow { cause: self.cause.clone(), effect: self.effect.clone() };
        proof {
            assert(r@.cause == self@.cause);
        }
        r
    }
}

impl PartialEq for FatArrow {
    fn eq(&self, other: &Self) -> (r: bool) {
        self.cause.eq(&other.cause) && self.effect.eq(&other.effect)
    }
}

impl vstd::std_specs::cmp::PartialEqSpecImpl for FatArrow {
    open spec fn obeys_eq_spec() -> bool {
        true
    }

    open spec fn eq_spec(&self, other: &FatArrow) -> bool {
        self@.cause == other@.cause && self@.effect == other@.effect
    }
}

/// A chain of fat arrows, kept as its decomposition into two-polynomial parts.
#[derive(Debug)]
pub struct FatArrowRule {
    pub(crate) parts: Vec<FatArrow>,
}

impl View for FatArrowRule {
    type V = Seq<ArrowView>;

    closed spec fn view(&self) -> Seq<ArrowView> {
        self.parts.deep_view()
    }
}

impl DeepView for FatArrowRule {
    type V = Seq<ArrowView>;

    open spec fn deep_view(&self) -> Seq<ArrowView> {
        self@
    }
}

pub open spec fn far_wf(parts: Seq<ArrowView>) -> bool {
    &&& parts.len() > 0
    &&& forall|i: int| 0 <= i < parts.len() ==> arrow_wf(#[trigger] parts[i])
}

impl FatArrowRule {
    pub open spec fn wf(&self) -> bool {
        far_wf(self@)
    }

    /// An explicit chain of parts, for building expected values; nothing is
    /// checked.
    pub fn from_arrows(parts: Vec<FatArrow>) -> (r: FatArrowRule)
        ensures
            r@ == parts.deep_view(),
    {
        FatArrowRule { parts }
    }
}

impl Clone for FatArrowRule {
    fn clone(&self) -> (r: Self)
        ensures
            r@ == self@,
    {
        let mut parts: Vec<FatArrow> = Vec::new();
        let mut i: usize = 0;
        while i < self.parts.len()
            invariant
                0 <= i <= self.parts.len(),
                parts.deep_view().len() == i,
                forall|k: int| 0 <= k < i ==> parts.deep_view()[k] == self@[k],
            decreases self.parts.len() - i,
        {
            let c = self.parts[i].clone();
            proof {
                assert(c@ == self.parts@[i as int]@);
            }
            parts.push(c);
            i += 1;
        }
        let r = FatArrowRule { parts };
        proof {
            assert(r@ =~= self@);
        }
        r
    }
}

impl PartialEq for FatArrowRule {
    fn eq(&self, other: &Self) -> (r: bool) {
        if self.parts.len() != other.parts.len() {
            assert(self@.len() != other@.len());
            return false;
        }
        let mut i: usize = 0;
        while i < self.parts.len()
            invariant
                0 <= i <= self.parts.len(),
                self.parts.len() == other.parts.len(),
                forall|k: int| 0 <= k < i ==> self@[k].cause == other@[k].cause && self@[k].effect
                    == other@[k].effect,
            decreases self.parts.len() - i,
        {
            if !self.parts[i].eq(&other.parts[i]) {
                proof {
                    assert(self@[i as int] == self.parts@[i as int]@);
                    assert(other@[i as int] == other.parts@[i as int]@);
                }
                return false;
            }
            i += 1;
        }
        proof {
            assert forall|k: int| 0 <= k < self@.len() implies self@[k] == other@[k] by {
                assert(self@[k].cause == other@[k].cause);
            }
            assert(self@ =~= other@);
        }
        true
    }
}

impl vstd::std_specs::cmp::PartialEqSpecImpl for FatArrowRule {
    open spec fn obeys_eq_spec() -> bool {
        true
    }

    open spec fn eq_spec(&self, other: &FatArrowRule) -> bool {
        self@ == other@
    }
}

// --- The Rex slab ---

/// View of one kind in the slab.
#[verifier::ext_equal]
pub enum KindView {
    Thin(TarView),
    Fat(Seq<ArrowView>),
    Instance(InstanceView),
    Product(Seq<RexID>),
    Sum(Seq<RexID>),
}

/// One node of a rule expression: a thin rule, a fat rule, an instance, or a
/// sum or product over children.
#[derive(Debug)]
pub enum RexKind {
    Thin(ThinArrowRule),
    Fat(FatArrowRule),
    Instance(CesInstance),
    Product(RexTree),
    Sum(RexTree),
}

impl View for RexKind {
    type V = KindView;

    open spec fn view(&self) -> KindView {
        match self {
            RexKind::Thin(tar) => KindView::Thin(tar@),
            RexKind::Fat(far) => KindView::Fat(far@),
            RexKind::Instance(inst) => KindView::Instance(inst@),
            RexKind::Product(tree) => KindView::Product(tree@),
            RexKind::Sum(tree) => KindView::Sum(tree@),
        }
    }
}

impl DeepView for RexKind {
    type V = KindView;

    open spec fn deep_view(&self) -> KindView {
        self@
    }
}

impl Clone for RexKind {
    fn clone(&self) -> (r: Self)
        ensures
            r@ == self@,
    {
        match self {
            RexKind::Thin(tar) => RexKind::Thin(tar.clone()),
            RexKind::Fat(far) => RexKind::Fat(far.clone()),
            RexKind::Instance(inst) => {
                let c = inst.clone();
                proof {
                    assert(c@ == inst@);
                }
                RexKind::Instance(c)
            },
            RexKind::Product(tree) => RexKind::Product(tree.clone()),
            RexKind::Sum(tree) => RexKind::Sum(tree.clone()),
        }
    }
}

impl PartialEq for RexKind {
    fn eq(&self, other: &Self) -> (r: bool) {
        match (self, other) {
            (RexKind::Thin(a), RexKind::Thin(b)) => a.eq(b),
            (RexKind::Fat(a), RexKind::Fat(b)) => a.eq(b),
            (RexKind::Instance(a), RexKind::Instance(b)) => {
                let r = a.eq(b);
                proof {
                    if r {
                        assert(a@.name == b@.name && a@.args == b@.args);
                    }
                }
                r
            },
            (RexKind::Product(a), RexKind::Product(b)) => a.eq(b),
            (RexKind::Sum(a), RexKind::Sum(b)) => a.eq(b),
            _ => false,
        }
    }
}

impl vstd::std_specs::cmp::PartialEqSpecImpl for RexKind {
    open spec fn obeys_eq_spec() -> bool {
        true
    }

    open spec fn eq_spec(&self, other: &RexKind) -> bool {
        kind_view_eq(self@, other@)
    }
}

/// Structural equality of kind views, component by component.
pub open spec fn kind_view_eq(a: KindView, b: KindView) -> bool {
    match (a, b) {
        (KindView::Thin(x), KindView::Thin(y)) => x.nodes == y.nodes && x.cause == y.cause
            && x.effect == y.effect,
        (KindView::Fat(x), KindView::Fat(y)) => x == y,
        (KindView::Instance(x), KindView::Instance(y)) => x.name == y.name && x.args == y.args,
        (KindView::Product(x), KindView::Product(y)) => x == y,
        (KindView::Sum(x), KindView::Sum(y)) => x == y,
        _ => false,
    }
}

/// A rule expression: a flat, index-addressed tree of kinds.  `kinds[0]` is
/// the root; children are referenced by absolute index.
#[derive(Debug)]
pub struct Rex {
    pub(crate) kinds: Vec<RexKind>,
}

impl View for Rex {
    type V = Seq<KindView>;

    closed spec fn view(&self) -> Seq<KindView> {
        self.kinds.deep_view()
    }
}

/// The child indices of a kind, empty for the leaves.
pub open spec fn kind_children(k: KindView) -> Seq<RexID> {
    match k {
        KindView::Product(ids) => ids,
        KindView::Sum(ids) => ids,
        _ => Seq::empty(),
    }
}

pub open spec fn kind_is_internal(k: KindView) -> bool {
    k is Product || k is Sum
}

/// Structural validity of a slab: every `Sum` or `Product` node has at least
/// one child, and each child index lies strictly between the owner's index
/// and the slab's length.
pub open spec fn rex_wf(ks: Seq<KindView>) -> bool {
    forall|p: int|
        0 <= p < ks.len() && kind_is_internal(#[trigger] ks[p]) ==> {
            let ids = kind_children(ks[p]);
            ids.len() > 0 && forall|k: int| 0 <= k < ids.len() ==> p < #[trigger] ids[k] < ks.len()
        }
}

/// The remaining structural invariant of the data model: every kind except
/// the root is referenced by exactly one parent tree.  The exact slab
/// contracts of the constructors and of normalization determine it on any
/// given expression; it is stated here by name so callers can speak of it.
pub open spec fn is_referenced(ks: Seq<KindView>, c: int) -> bool {
    exists|p: int, w: int|
        0 <= p < ks.len() && 0 <= w < kind_children(ks[p]).len() && (#[trigger] kind_children(
            ks[p],
        )[w]) == c as RexID
}

pub open spec fn unique_parents(ks: Seq<KindView>) -> bool {
    &&& (forall|c: int| 1 <= c < ks.len() ==> #[trigger] is_referenced(ks, c))
    &&& (forall|p1: int, w1: int, p2: int, w2: int|
        0 <= p1 < ks.len() && 0 <= w1 < kind_children(ks[p1]).len() && 0 <= p2 < ks.len() && 0
            <= w2 < kind_children(ks[p2]).len() && (#[trigger] kind_children(ks[p1])[w1]) == (
        #[trigger] kind_children(ks[p2])[w2]) ==> (p1 == p2 && w1 == w2))
}

/// Validity of the payloads: every thin and fat rule in the slab is itself
/// well-formed.
pub open spec fn rex_payload_wf(ks: Seq<KindView>) -> bool {
    forall|p: int|
        0 <= p < ks.len() ==> match #[trigger] ks[p] {
            KindView::Thin(t) => tar_wf(t),
            KindView::Fat(parts) => far_wf(parts),
            _ => true,
        }
}

impl Rex {
    pub open spec fn wf(&self) -> bool {
        rex_wf(self@) && rex_payload_wf(self@)
    }

    /// A rule expression of a single thin arrow rule.
    pub fn from_thin(rule: ThinArrowRule) -> (r: Rex)
        ensures
            r@ == seq![KindView::Thin(rule@)],
            rule.wf() ==> r.wf(),
            unique_parents(r@),
    {
        let mut kinds: Vec<RexKind> = Vec::new();
        kinds.push(RexKind::Thin(rule));
        let r = Rex { kinds };
        proof {
            assert(r@ =~= seq![KindView::Thin(rule@)]);
        }
        r
    }

    /// A rule expression of a single fat arrow rule.
    pub fn from_fat(rule: FatArrowRule) -> (r: Rex)
        ensures
            r@ == seq![KindView::Fat(rule@)],
            rule.wf() ==> r.wf(),
            unique_parents(r@),
    {
        let mut kinds: Vec<RexKind> = Vec::new();
        kinds.push(RexKind::Fat(rule));
        let r = Rex { kinds };
        proof {
            assert(r@ =~= seq![KindView::Fat(rule@)]);
        }
        r
    }

    /// A rule expression of a single instance invocation.
    pub fn from_instance(instance: CesInstance) -> (r: Rex)
        ensures
            r@.len() == 1,
            r@[0] is Instance,
            r@[0]->Instance_0.name == instance@.name,
            r@[0]->Instance_0.args == instance@.args,
            r.wf(),
            unique_parents(r@),
    {
        let mut kinds: Vec<RexKind> = Vec::new();
        kinds.push(RexKind::Instance(instance));
        let r = Rex { kinds };
        proof {
            assert(r@ =~= seq![kinds@[0]@]);
        }
        r
    }

    /// An explicit slab, for building expected values; nothing is checked.
    pub fn from_kinds(kinds: Vec<RexKind>) -> (r: Rex)
        ensures
            r@ == kinds.deep_view(),
    {
        Rex { kinds }
    }

    pub fn get_kinds(&self) -> (r: &[RexKind])
        ensures
            r.deep_view() == self@,
    {
        let r = self.kinds.as_slice();
        proof {
            assert(r.deep_view() =~~= self@);
        }
        r
    }

    pub fn len(&self) -> (r: usize)
        ensures
            r == self@.len(),
    {
        self.kinds.len()
    }
}

impl PartialEq for Rex {
    fn eq(&self, other: &Self) -> (r: bool) {
        if self.kinds.len() != other.kinds.len() {
            assert(self@.len() != other@.len());
            return false;
        }
        let mut i: usize = 0;
        while i < self.kinds.len()
            invariant
                0 <= i <= self.kinds.len(),
                self.kinds.len() == other.kinds.len(),
                forall|k: int| 0 <= k < i ==> kind_view_eq(self@[k], other@[k]),
            decreases self.kinds.len() - i,
        {
            if !self.kinds[i].eq(&other.kinds[i]) {
                proof {
                    assert(self@[i as int] == self.kinds@[i as int]@);
                    assert(other@[i as int] == other.kinds@[i as int]@);
                }
                return false;
            }
            i += 1;
        }
        true
    }
}

impl vstd::std_specs::cmp::PartialEqSpecImpl for Rex {
    open spec fn obeys_eq_spec() -> bool {
        true
    }

    open spec fn eq_spec(&self, other: &Rex) -> bool {
        self@.len() == other@.len() && forall|k: int|
            0 <= k < self@.len() ==> kind_view_eq(self@[k], other@[k])
    }
}

// --- Construction of fat arrow rules, and the FIT transformation ---

/// The first position of `acc` holding the node list `key`.
fn find_by_nodes(acc: &Vec<ThinArrowRule>, key: &NodeList) -> (r: Option<usize>)
    ensures
        ({
            let f = first_with_nodes(acc.deep_view(), key@);
            match r {
                Some(j) => f == j as int,
                None => f == -1,
            }
        }),
{
    let mut i: usize = 0;
    while i < acc.len()
        invariant
            0 <= i <= acc.len(),
            forall|k: int| 0 <= k < i ==> (#[trigger] acc.deep_view()[k]).nodes != key@,
        decreases acc.len() - i,
    {
        if acc[i].nodes.eq(key) {
            proof {
                lemma_first_with_nodes(acc.deep_view(), key@);
                assert(acc.deep_view()[i as int].nodes == key@);
            }
            return Some(i);
        }
        proof {
            assert(acc.deep_view()[i as int].nodes != key@);
        }
        i += 1;
    }
    proof {
        lemma_first_with_nodes(acc.deep_view(), key@);
    }
    None
}

/// The first position of `acc` holding the effect polynomial `key`.
fn find_by_effect(acc: &Vec<ThinArrowRule>, key: &Polynomial) -> (r: Option<usize>)
    ensures
        ({
            let f = first_with_effect(acc.deep_view(), key@);
            match r {
                Some(j) => f == j as int,
                None => f == -1,
            }
        }),
{
    let mut i: usize = 0;
    while i < acc.len()
        invariant
            0 <= i <= acc.len(),
            forall|k: int| 0 <= k < i ==> (#[trigger] acc.deep_view()[k]).effect != key@,
        decreases acc.len() - i,
    {
        if acc[i].effect.eq(key) {
            proof {
                lemma_first_with_effect(acc.deep_view(), key@);
                assert(acc.deep_view()[i as int].effect == key@);
            }
            return Some(i);
        }
        proof {
            assert(acc.deep_view()[i as int].effect != key@);
        }
        i += 1;
    }
    proof {
        lemma_first_with_effect(acc.deep_view(), key@);
    }
    None
}

/// The first position of `acc` holding the cause polynomial `key`.
fn find_by_cause(acc: &Vec<ThinArrowRule>, key: &Polynomial) -> (r: Option<usize>)
    ensures
        ({
            let f = first_with_cause(acc.deep_view(), key@);
            match r {
                Some(j) => f == j as int,
                None => f == -1,
            }
        }),
{
    let mut i: usize = 0;
    while i < acc.len()
        invariant
            0 <= i <= acc.len(),
            forall|k: int| 0 <= k < i ==> (#[trigger] acc.deep_view()[k]).cause != key@,
        decreases acc.len() - i,
    {
        if acc[i].cause.eq(key) {
            proof {
                lemma_first_with_cause(acc.deep_view(), key@);
                assert(acc.deep_view()[i as int].cause == key@);
            }
            return Some(i);
        }
        proof {
            assert(acc.deep_view()[i as int].cause != key@);
        }
        i += 1;
    }
    proof {
        lemma_first_with_cause(acc.deep_view(), key@);
    }
    None
}

/// One pass of phase 2 over effect-only rules: rules sharing a node list are
/// folded together by summing their effect polynomials.
fn merge_eff_pass(tars: Vec<ThinArrowRule>) -> (r: Vec<ThinArrowRule>)
    requires
        forall|k: int| 0 <= k < tars.deep_view().len() ==> tx_ok(#[trigger] tars.deep_view()[k]),
    ensures
        r.deep_view() == merge_eff_upto(tars.deep_view(), tars.deep_view().len() as int),
        forall|k: int| 0 <= k < r.deep_view().len() ==> tx_ok(#[trigger] r.deep_view()[k]),
{
    let ghost tv = tars.deep_view();
    let mut acc: Vec<ThinArrowRule> = Vec::new();
    let mut i: usize = 0;
    while i < tars.len()
        invariant
            0 <= i <= tars.len(),
            tars.deep_view() == tv,
            forall|k: int| 0 <= k < tv.len() ==> tx_ok(#[trigger] tv[k]),
            acc.deep_view() == merge_eff_upto(tv, i as int),
            forall|k: int| 0 <= k < acc.deep_view().len() ==> tx_ok(#[trigger] acc.deep_view()[k]),
        decreases tars.len() - i,
    {
        let t = tars[i].clone();
        proof {
            assert(t@ == tv[i as int]);
        }
        let ghost prev = acc.deep_view();
        match find_by_nodes(&acc, &t.nodes) {
            Some(j) => {
                proof {
                    lemma_first_with_nodes(prev, t@.nodes);
                }
                let mut e = acc.remove(j);
                proof {
                    assert(e@ == prev[j as int]);
                    lemma_merge_monos_wf(e@.effect, t@.effect);
                }
                e.effect.add_assign(&t.effect);
                acc.insert(j, e);
                proof {
                    assert(acc.deep_view() =~~= merge_eff_step(prev, tv[i as int]));
                }
            },
            None => {
                acc.push(t);
                proof {
                    assert(acc.deep_view() =~~= merge_eff_step(prev, tv[i as int]));
                }
            },
        }
        i += 1;
    }
    acc
}

/// One pass of phase 2 over cause-only rules.
fn merge_cau_pass(tars: Vec<ThinArrowRule>) -> (r: Vec<ThinArrowRule>)
    requires
        forall|k: int| 0 <= k < tars.deep_view().len() ==> rx_ok(#[trigger] tars.deep_view()[k]),
    ensures
        r.deep_view() == merge_cau_upto(tars.deep_view(), tars.deep_view().len() as int),
        forall|k: int| 0 <= k < r.deep_view().len() ==> rx_ok(#[trigger] r.deep_view()[k]),
{
    let ghost tv = tars.deep_view();
    let mut acc: Vec<ThinArrowRule> = Vec::new();
    let mut i: usize = 0;
    while i < tars.len()
        invariant
            0 <= i <= tars.len(),
            tars.deep_view() == tv,
            forall|k: int| 0 <= k < tv.len() ==> rx_ok(#[trigger] tv[k]),
            acc.deep_view() == merge_cau_upto(tv, i as int),
            forall|k: int| 0 <= k < acc.deep_view().len() ==> rx_ok(#[trigger] acc.deep_view()[k]),
        decreases tars.len() - i,
    {
        let t = tars[i].clone();
        proof {
            assert(t@ == tv[i as int]);
        }
        let ghost prev = acc.deep_view();
        match find_by_nodes(&acc, &t.nodes) {
            Some(j) => {
                proof {
                    lemma_first_with_nodes(prev, t@.nodes);
                }
                let mut e = acc.remove(j);
                proof {
                    assert(e@ == prev[j as int]);
                    lemma_merge_monos_wf(e@.cause, t@.cause);
                }
                e.cause.add_assign(&t.cause);
                acc.insert(j, e);
                proof {
                    assert(acc.deep_view() =~~= merge_cau_step(prev, tv[i as int]));
                }
            },
            None => {
                acc.push(t);
                proof {
                    assert(acc.deep_view() =~~= merge_cau_step(prev, tv[i as int]));
                }
            },
        }
        i += 1;
    }
    acc
}

/// One pass of phase 3 over effect-only rules: rules sharing an effect
/// polynomial are folded together by summing their node lists.
fn merge_by_eff_pass(tars: Vec<ThinArrowRule>) -> (r: Vec<ThinArrowRule>)
    requires
        forall|k: int| 0 <= k < tars.deep_view().len() ==> tx_ok(#[trigger] tars.deep_view()[k]),
    ensures
        r.deep_view() == merge_by_eff_upto(tars.deep_view(), tars.deep_view().len() as int),
        forall|k: int| 0 <= k < r.deep_view().len() ==> tx_ok(#[trigger] r.deep_view()[k]),
{
    let ghost tv = tars.deep_view();
    let mut acc: Vec<ThinArrowRule> = Vec::new();
    let mut i: usize = 0;
    while i < tars.len()
        invariant
            0 <= i <= tars.len(),
            tars.deep_view() == tv,
            forall|k: int| 0 <= k < tv.len() ==> tx_ok(#[trigger] tv[k]),
            acc.deep_view() == merge_by_eff_upto(tv, i as int),
            forall|k: int| 0 <= k < acc.deep_view().len() ==> tx_ok(#[trigger] acc.deep_view()[k]),
        decreases tars.len() - i,
    {
        let t = tars[i].clone();
        proof {
            assert(t@ == tv[i as int]);
        }
        let ghost prev = acc.deep_view();
        match find_by_effect(&acc, &t.effect) {
            Some(j) => {
                proof {
                    lemma_first_with_effect(prev, t@.effect);
                }
                let mut e = acc.remove(j);
                proof {
                    assert(e@ == prev[j as int]);
                    lemma_merge_names_wf(e@.nodes, t@.nodes);
                }
                e.nodes.add_assign(&t.nodes);
                acc.insert(j, e);
                proof {
                    assert(acc.deep_view() =~~= merge_by_eff_step(prev, tv[i as int]));
                }
            },
            None => {
                acc.push(t);
                proof {
                    assert(acc.deep_view() =~~= merge_by_eff_step(prev, tv[i as int]));
                }
            },
        }
        i += 1;
    }
    acc
}

/// One pass of phase 3 over cause-only rules.
fn merge_by_cau_pass(tars: Vec<ThinArrowRule>) -> (r: Vec<ThinArrowRule>)
    requires
        forall|k: int| 0 <= k < tars.deep_view().len() ==> rx_ok(#[trigger] tars.deep_view()[k]),
    ensures
        r.deep_view() == merge_by_cau_upto(tars.deep_view(), tars.deep_view().len() as int),
        forall|k: int| 0 <= k < r.deep_view().len() ==> rx_ok(#[trigger] r.deep_view()[k]),
{
    let ghost tv = tars.deep_view();
    let mut acc: Vec<ThinArrowRule> = Vec::new();
    let mut i: usize = 0;
    while i < tars.len()
        invariant
            0 <= i <= tars.len(),
            tars.deep_view() == tv,
            forall|k: int| 0 <= k < tv.len() ==> rx_ok(#[trigger] tv[k]),
            acc.deep_view() == merge_by_cau_upto(tv, i as int),
            forall|k: int| 0 <= k < acc.deep_view().len() ==> rx_ok(#[trigger] acc.deep_view()[k]),
        decreases tars.len() - i,
    {
        let t = tars[i].clone();
        proof {
            assert(t@ == tv[i as int]);
        }
        let ghost prev = acc.deep_view();
        match find_by_cause(&acc, &t.cause) {
            Some(j) => {
                proof {
                    lemma_first_with_cause(prev, t@.cause);
                }
                let mut e = acc.remove(j);
                proof {
                    assert(e@ == prev[j as int]);
                    lemma_merge_names_wf(e@.nodes, t@.nodes);
                }
                e.nodes.add_assign(&t.nodes);
                acc.insert(j, e);
                proof {
                    assert(acc.deep_view() =~~= merge_by_cau_step(prev, tv[i as int]));
                }
            },
            None => {
                acc.push(t);
                proof {
                    assert(acc.deep_view() =~~= merge_by_cau_step(prev, tv[i as int]));
                }
            },
        }
        i += 1;
    }
    acc
}

impl FatArrowRule {
    /// Builds a fat arrow rule from a head polynomial and a non-empty chain
    /// of `(operator, polynomial)` steps, decomposing `=>`, `<=` and `<=>`
    /// into two-polynomial parts left to right.
    pub fn from_parts(head: Polynomial, tail: Vec<(BinOp, Polynomial)>) -> (r: FatArrowRule)
        requires
            tail@.len() > 0,
            head.wf(),
            head@.len() > 0,
            forall|k: int|
                0 <= k < tail@.len() ==> {
                    &&& (#[trigger] tail@[k]).1.wf()
                    &&& tail@[k].1@.len() > 0
                    &&& (tail@[k].0 is FatTx || tail@[k].0 is FatRx || tail@[k].0 is FatDx)
                },
        ensures
            r@ == far_parts(head@, tail_view(tail@)),
            r.wf(),
    {
        let ghost tv = tail_view(tail@);
        proof {
            assert forall|k: int| 0 <= k < tv.len() implies #[trigger] tv[k] == (
            tail@[k].0,
            tail@[k].1@,
            ) by {}
        }
        let mut parts: Vec<FatArrow> = Vec::new();
        let mut prev = head;
        let mut i: usize = 0;
        while i < tail.len()
            invariant
                0 <= i <= tail.len(),
                tv == tail_view(tail@),
                tv.len() == tail@.len(),
                forall|k: int| 0 <= k < tv.len() ==> #[trigger] tv[k] == (tail@[k].0, tail@[k].1@),
                forall|k: int|
                    0 <= k < tail@.len() ==> {
                        &&& (#[trigger] tail@[k]).1.wf()
                        &&& tail@[k].1@.len() > 0
                        &&& (tail@[k].0 is FatTx || tail@[k].0 is FatRx || tail@[k].0 is FatDx)
                    },
                parts.deep_view() == parts_upto(head@, tv, i as int),
                prev@ == prev_poly(head@, tv, i as int),
                prev.wf(),
                prev@.len() > 0,
                forall|k: int|
                    0 <= k < parts.deep_view().len() ==> arrow_wf(#[trigger] parts.deep_view()[k]),
            decreases tail.len() - i,
        {
            let ghost prev_parts = parts.deep_view();
            let op = tail[i].0;
            let poly = tail[i].1.clone();
            proof {
                assert(poly@ == tv[i as int].1);
                assert(op == tv[i as int].0);
            }
            match op {
                BinOp::FatTx => {
                    let effect = poly.clone();
                    parts.push(FatArrow { cause: prev, effect });
                    prev = poly;
                },
                BinOp::FatRx => {
                    let cause = poly.clone();
                    parts.push(FatArrow { cause, effect: prev });
                    prev = poly;
                },
                BinOp::FatDx => {
                    let c1 = prev.clone();
                    let e1 = poly.clone();
                    parts.push(FatArrow { cause: c1, effect: e1 });
                    let c2 = poly.clone();
                    parts.push(FatArrow { cause: c2, effect: prev });
                    prev = poly;
                },
                BinOp::Add => {
                    proof {
                        assert(false);
                    }
                    prev = poly;
                },
            }
            proof {
                assert(parts.deep_view() =~~= prev_parts + step_arrows(
                    prev_poly(head@, tv, i as int),
                    tv[i as int].0,
                    tv[i as int].1,
                ));
                assert(parts.deep_view() == parts_upto(head@, tv, i + 1));
            }
            i += 1;
        }
        let r = FatArrowRule { parts };
        proof {
            assert(r@ == far_parts(head@, tail_view(tail@)));
        }
        r
    }

    /// The FIT transformation: this fat arrow rule rewritten into an
    /// equivalent sum of thin arrow rules.  The result is deterministic: it
    /// is a function of the rule's parts alone.  Every rule that comes out
    /// has a non-empty node list and at least one non-empty polynomial.
    pub fn to_thin_rules(&self) -> (r: Vec<ThinArrowRule>)
        requires
            self.wf(),
        ensures
            r.deep_view() == fit_far(self@),
            r.deep_view().len() >= 1,
            forall|k: int|
                0 <= k < r.deep_view().len() ==> fit_tar_ok(#[trigger] r.deep_view()[k]),
    {
        let ghost pv = self@;
        // Phase 1: split each part into an effect-only and a cause-only rule.
        let mut tx: Vec<ThinArrowRule> = Vec::new();
        let mut rx: Vec<ThinArrowRule> = Vec::new();
        let mut i: usize = 0;
        while i < self.parts.len()
            invariant
                0 <= i <= self.parts.len(),
                pv == self@,
                pv.len() == self.parts@.len(),
                self.wf(),
                tx.deep_view() == tx_split(pv, i as int),
                rx.deep_view() == rx_split(pv, i as int),
                forall|k: int| 0 <= k < tx.deep_view().len() ==> tx_ok(#[trigger] tx.deep_view()[k]),
                forall|k: int| 0 <= k < rx.deep_view().len() ==> rx_ok(#[trigger] rx.deep_view()[k]),
            decreases self.parts.len() - i,
        {
            let part = &self.parts[i];
            proof {
                assert(part@ == pv[i as int]);
                assert(arrow_wf(pv[i as int]));
                lemma_flatten_upto_len(part@.cause, part@.cause.len() as int);
                lemma_flatten_upto_len(part@.effect, part@.effect.len() as int);
            }
            let sources = part.cause.flattened_clone();
            let sinks = part.effect.flattened_clone();
            let ghost prev_tx = tx.deep_view();
            let ghost prev_rx = rx.deep_view();
            let t = match ThinArrowRule::new().with_nodes(sources) {
                Ok(t) => t.with_effect(part.effect.clone()),
                Err(_) => {
                    proof {
                        assert(false);
                    }
                    ThinArrowRule::new()
                },
            };
            tx.push(t);
            let u = match ThinArrowRule::new().with_nodes(sinks) {
                Ok(u) => u.with_cause(part.cause.clone()),
                Err(_) => {
                    proof {
                        assert(false);
                    }
                    ThinArrowRule::new()
                },
            };
            rx.push(u);
            proof {
                assert(tx.deep_view() =~~= tx_split(pv, i + 1));
                assert(rx.deep_view() =~~= rx_split(pv, i + 1));
            }
            i += 1;
        }
        proof {
            crate::fit::lemma_tx_split_len(pv, pv.len() as int);
        }
        let ghost tx0 = tx.deep_view();
        let ghost rx0 = rx.deep_view();

        // Phases 2 and 3, repeated to a fixed point.  A pass merged two
        // rules exactly when it shortened its list.
        let mut done = false;
        while !done
            invariant
                forall|k: int| 0 <= k < tx.deep_view().len() ==> tx_ok(#[trigger] tx.deep_view()[k]),
                forall|k: int| 0 <= k < rx.deep_view().len() ==> rx_ok(#[trigger] rx.deep_view()[k]),
                tx.deep_view().len() >= 1,
                fit_fix(tx0, rx0) == if done {
                    (tx.deep_view(), rx.deep_view())
                } else {
                    fit_fix(tx.deep_view(), rx.deep_view())
                },
            decreases tx.len() + rx.len() + (if done {
                0int
            } else {
                1int
            }),
        {
            let n_tx = tx.len();
            let n_rx = rx.len();
            let ghost cur_tx = tx.deep_view();
            let ghost cur_rx = rx.deep_view();
            proof {
                lemma_merge_eff_len(cur_tx, cur_tx.len() as int);
                lemma_merge_cau_len(cur_rx, cur_rx.len() as int);
                let tx2 = merge_eff_upto(cur_tx, cur_tx.len() as int);
                let rx2 = merge_cau_upto(cur_rx, cur_rx.len() as int);
                lemma_merge_by_eff_len(tx2, tx2.len() as int);
                lemma_merge_by_cau_len(rx2, rx2.len() as int);
            }
            tx = merge_eff_pass(tx);
            rx = merge_cau_pass(rx);
            tx = merge_by_eff_pass(tx);
            rx = merge_by_cau_pass(rx);
            if tx.len() == n_tx && rx.len() == n_rx {
                done = true;
            }
        }
        let ghost ftx = tx.deep_view();
        let ghost frx = rx.deep_view();

        // Phase 4: pair each cause-only rule with the first effect-only rule
        // over the same node list; unmatched ones are appended.
        let mut k: usize = 0;
        while k < rx.len()
            invariant
                0 <= k <= rx.len(),
                rx.deep_view() == frx,
                tx.deep_view() == pair_upto(ftx, frx, k as int),
                tx.deep_view().len() >= 1,
                forall|j: int| 0 <= j < frx.len() ==> rx_ok(#[trigger] frx[j]),
                forall|j: int|
                    0 <= j < tx.deep_view().len() ==> fit_tar_ok(#[trigger] tx.deep_view()[j]),
            decreases rx.len() - k,
        {
            let t = rx[k].clone();
            proof {
                assert(t@ == frx[k as int]);
            }
            let ghost prev = tx.deep_view();
            match find_by_nodes(&tx, &t.nodes) {
                Some(j) => {
                    proof {
                        lemma_first_with_nodes(prev, t@.nodes);
                    }
                    let mut e = tx.remove(j);
                    proof {
                        assert(e@ == prev[j as int]);
                    }
                    e.cause = t.cause;
                    tx.insert(j, e);
                    proof {
                        assert(tx.deep_view() =~~= pair_step(prev, frx[k as int]));
                    }
                },
                None => {
                    tx.push(t);
                    proof {
                        assert(tx.deep_view() =~~= pair_step(prev, frx[k as int]));
                    }
                },
            }
            k += 1;
        }
        proof {
            assert(tx.deep_view() == fit_far(pv));
        }
        tx
    }
}

/// A kind with its child indices moved up by `off`.
pub open spec fn shift_kind(k: KindView, off: int) -> KindView {
    match k {
        KindView::Product(ids) => KindView::Product(
            Seq::new(ids.len(), |c: int| (ids[c] + off) as RexID),
        ),
        KindView::Sum(ids) => KindView::Sum(Seq::new(ids.len(), |c: int| (ids[c] + off) as RexID)),
        _ => k,
    }
}

/// Validity of a slab under construction: every internal node above the
/// root placeholder has children strictly between its own position and the
/// current length, except a pending empty placeholder at `pending`.
pub open spec fn partial_wf(ks: Seq<KindView>, pending: int) -> bool {
    forall|p: int|
        1 <= p < ks.len() && p != pending && kind_is_internal(#[trigger] ks[p]) ==> {
            let ids = kind_children(ks[p]);
            ids.len() > 0 && forall|c: int| 0 <= c < ids.len() ==> p < (#[trigger] ids[c]) < ks.len()
        }
}

/// Appends the kinds of `source` to `kinds`, moving every child index of the
/// appended kinds up by the old length, so that the slab stays contiguous.
/// Returns the new length.
fn append_with_offset(kinds: &mut Vec<RexKind>, source: Rex) -> (r: usize)
    requires
        rex_wf(source@),
        rex_payload_wf(source@),
    ensures
        r == final(kinds)@.len(),
        final(kinds)@.len() == old(kinds)@.len() + source@.len(),
        forall|q: int| 0 <= q < old(kinds)@.len() ==> #[trigger] final(kinds)@[q] == old(
            kinds,
        )@[q],
        forall|q: int|
            0 <= q < source@.len() ==> (#[trigger] final(kinds)@[old(kinds)@.len() + q])@
                == shift_kind(source@[q], old(kinds)@.len() as int),
        forall|pend: int|
            partial_wf(old(kinds).deep_view(), pend) ==> partial_wf(
                final(kinds).deep_view(),
                pend,
            ),
        rex_payload_wf(old(kinds).deep_view()) ==> rex_payload_wf(final(kinds).deep_view()),
        no_single_child(old(kinds).deep_view()) && no_single_child(source@) ==> no_single_child(
            final(kinds).deep_view(),
        ),
{
    let off = kinds.len();
    let ghost base: Seq<RexKind> = kinds@;
    let ghost srcv = source@;
    let src = source.kinds;
    let mut q: usize = 0;
    while q < src.len()
        invariant
            0 <= q <= src.len(),
            src.deep_view() == srcv,
            rex_wf(srcv),
            base.len() == off,
            kinds@.len() == off + q,
            forall|t: int| 0 <= t < off ==> #[trigger] kinds@[t] == base[t],
            forall|t: int| 0 <= t < q ==> (#[trigger] kinds@[off + t])@ == srcv[t],
        decreases src.len() - q,
    {
        let c = src[q].clone();
        proof {
            assert(c@ == srcv[q as int]);
        }
        kinds.push(c);
        q += 1;
    }
    // Move the child indices of the appended block up by `off`.
    let total = kinds.len();
    let mut p: usize = off;
    while p < total
        invariant
            off <= p <= total,
            total == kinds@.len(),
            total == off + srcv.len(),
            rex_wf(srcv),
            base.len() == off,
            forall|t: int| 0 <= t < off ==> #[trigger] kinds@[t] == base[t],
            forall|t: int|
                p - off <= t < srcv.len() ==> (#[trigger] kinds@[off + t])@ == srcv[t],
            forall|t: int|
                0 <= t < p - off ==> (#[trigger] kinds@[off + t])@ == shift_kind(
                    srcv[t],
                    off as int,
                ),
        decreases total - p,
    {
        let ghost t = p - off;
        let ghost prev: Seq<RexKind> = kinds@;
        proof {
            assert(prev[off + t]@ == srcv[t as int]);
        }
        let e = kinds.remove(p);
        proof {
            assert(e == prev[off + t]);
            assert(e@ == srcv[t as int]);
        }
        match e {
            RexKind::Product(tree) => {
                let mut ids2: Vec<RexID> = Vec::new();
                let mut c: usize = 0;
                while c < tree.ids.len()
                    invariant
                        0 <= c <= tree.ids.len(),
                        tree@ == kind_children(srcv[t as int]),
                        kind_is_internal(srcv[t as int]),
                        rex_wf(srcv),
                        0 <= t < srcv.len(),
                        total == off + srcv.len(),
                        ids2@.len() == c,
                        forall|w: int| 0 <= w < c ==> #[trigger] ids2@[w] == tree@[w] + off,
                    decreases tree.ids.len() - c,
                {
                    proof {
                        assert(kind_children(srcv[t as int])[c as int] < srcv.len());
                    }
                    ids2.push(tree.ids[c] + off);
                    c += 1;
                }
                kinds.insert(p, RexKind::Product(RexTree { ids: ids2 }));
                proof {
                    assert(Seq::new(
                        tree@.len(),
                        |w: int| (kind_children(srcv[t as int])[w] + off) as RexID,
                    ) =~= ids2@);
                    assert(kinds@[p as int]@ == shift_kind(srcv[t as int], off as int));
                }
            },
            RexKind::Sum(tree) => {
                let mut ids2: Vec<RexID> = Vec::new();
                let mut c: usize = 0;
                while c < tree.ids.len()
                    invariant
                        0 <= c <= tree.ids.len(),
                        tree@ == kind_children(srcv[t as int]),
                        kind_is_internal(srcv[t as int]),
                        rex_wf(srcv),
                        0 <= t < srcv.len(),
                        total == off + srcv.len(),
                        ids2@.len() == c,
                        forall|w: int| 0 <= w < c ==> #[trigger] ids2@[w] == tree@[w] + off,
                    decreases tree.ids.len() - c,
                {
                    proof {
                        assert(kind_children(srcv[t as int])[c as int] < srcv.len());
                    }
                    ids2.push(tree.ids[c] + off);
                    c += 1;
                }
                kinds.insert(p, RexKind::Sum(RexTree { ids: ids2 }));
                proof {
                    assert(Seq::new(
                        tree@.len(),
                        |w: int| (kind_children(srcv[t as int])[w] + off) as RexID,
                    ) =~= ids2@);
                    assert(kinds@[p as int]@ == shift_kind(srcv[t as int], off as int));
                }
            },
            other => {
                kinds.insert(p, other);
                proof {
                    assert(kinds@[p as int]@ == shift_kind(srcv[t as int], off as int));
                }
            },
        }
        p += 1;
    }
    proof {
        assert forall|q: int|
            0 <= q < off implies #[trigger] kinds.deep_view()[q] == old(kinds).deep_view()[q] by {
            assert(kinds.deep_view()[q] == kinds@[q]@);
            assert(old(kinds).deep_view()[q] == old(kinds)@[q]@);
        }
        assert forall|q: int|
            0 <= q < srcv.len() implies #[trigger] kinds.deep_view()[off + q] == shift_kind(
                srcv[q],
                off as int,
            ) by {
            assert(kinds.deep_view()[off + q] == kinds@[off + q]@);
        }
        assert forall|pend: int|
            partial_wf(old(kinds).deep_view(), pend) implies partial_wf(
                kinds.deep_view(),
                pend,
            ) by {
            assert forall|w: int|
                1 <= w < kinds.deep_view().len() && w != pend && kind_is_internal(
                    #[trigger] kinds.deep_view()[w],
                ) implies {
                let cs = kind_children(kinds.deep_view()[w]);
                cs.len() > 0 && forall|c: int|
                    0 <= c < cs.len() ==> w < (#[trigger] cs[c]) < kinds.deep_view().len()
            } by {
                if w < off {
                    assert(kinds.deep_view()[w] == old(kinds).deep_view()[w]);
                    assert(kind_is_internal(old(kinds).deep_view()[w]));
                } else {
                    let t = w - off;
                    assert(kinds.deep_view()[off + t] == shift_kind(srcv[t], off as int));
                    assert(kinds.deep_view()[w] == shift_kind(srcv[t], off as int));
                    assert(kind_is_internal(srcv[t]));
                    let cs0 = kind_children(srcv[t]);
                    let cs = kind_children(kinds.deep_view()[w]);
                    assert(cs.len() == cs0.len());
                    assert(cs0.len() > 0);
                    assert forall|c: int|
                        0 <= c < cs.len() implies w < (#[trigger] cs[c])
                            < kinds.deep_view().len() by {
                        assert(cs[c] == cs0[c] + off);
                        assert(t < (#[trigger] cs0[c]) < srcv.len());
                    }
                }
            }
        }
        assert(no_single_child(old(kinds).deep_view()) && no_single_child(srcv)
            ==> no_single_child(kinds.deep_view())) by {
            if no_single_child(old(kinds).deep_view()) && no_single_child(srcv) {
                assert forall|w: int|
                    0 <= w < kinds.deep_view().len() && kind_is_internal(
                        #[trigger] kinds.deep_view()[w],
                    ) implies kind_children(kinds.deep_view()[w]).len() != 1 by {
                    if w < off {
                        assert(kinds.deep_view()[w] == old(kinds).deep_view()[w]);
                        assert(kind_is_internal(old(kinds).deep_view()[w]));
                    } else {
                        let t = w - off;
                        assert(kinds.deep_view()[off + t] == shift_kind(srcv[t], off as int));
                        assert(kinds.deep_view()[w] == shift_kind(srcv[t], off as int));
                        assert(kind_is_internal(srcv[t]));
                        assert(kind_children(shift_kind(srcv[t], off as int)).len()
                            == kind_children(srcv[t]).len());
                    }
                }
            }
        }
        assert(rex_payload_wf(old(kinds).deep_view()) ==> rex_payload_wf(
            kinds.deep_view(),
        )) by {
            if rex_payload_wf(old(kinds).deep_view()) {
                assert forall|w: int| 0 <= w < kinds.deep_view().len() implies match #[trigger] kinds.deep_view()[w] {
                    KindView::Thin(t) => tar_wf(t),
                    KindView::Fat(parts) => far_wf(parts),
                    _ => true,
                } by {
                    if w < off {
                        assert(kinds.deep_view()[w] == old(kinds).deep_view()[w]);
                    } else {
                        assert(kinds.deep_view()[off + (w - off)] == shift_kind(
                            srcv[w - off],
                            off as int,
                        ));
                        assert(kinds.deep_view()[w] == shift_kind(srcv[w - off], off as int));
                        assert(rex_payload_wf(srcv));
                    }
                }
            }
        }
    }
    total
}

/// Replaces the kind at `at`, keeping everything else in place.
fn replace_at(kinds: &mut Vec<RexKind>, at: usize, k: RexKind)
    requires
        at < old(kinds)@.len(),
    ensures
        final(kinds)@.len() == old(kinds)@.len(),
        final(kinds).deep_view().len() == old(kinds).deep_view().len(),
        forall|q: int|
            0 <= q < old(kinds)@.len() && q != at ==> #[trigger] final(kinds).deep_view()[q]
                == old(kinds).deep_view()[q],
        final(kinds).deep_view()[at as int] == k@,
{
    let ghost before: Seq<RexKind> = kinds@;
    let ghost kv = k@;
    let _ = kinds.remove(at);
    kinds.insert(at, k);
    proof {
        assert(kinds@ =~= before.update(at as int, kinds@[at as int]));
        assert forall|q: int|
            0 <= q < before.len() && q != at implies #[trigger] kinds.deep_view()[q] == old(
                kinds,
            ).deep_view()[q] by {
            assert(kinds.deep_view()[q] == kinds@[q]@);
            assert(kinds@[q] == before[q]);
            assert(old(kinds).deep_view()[q] == before[q]@);
        }
        assert(kinds.deep_view()[at as int] == kinds@[at as int]@);
    }
}

/// Appends one kind to the slab.
fn push_kind(kinds: &mut Vec<RexKind>, k: RexKind)
    ensures
        final(kinds)@.len() == old(kinds)@.len() + 1,
        final(kinds).deep_view().len() == old(kinds).deep_view().len() + 1,
        forall|q: int|
            0 <= q < old(kinds)@.len() ==> #[trigger] final(kinds).deep_view()[q] == old(
                kinds,
            ).deep_view()[q],
        final(kinds).deep_view()[old(kinds)@.len() as int] == k@,
{
    let ghost before: Seq<RexKind> = kinds@;
    kinds.push(k);
    proof {
        assert forall|q: int|
            0 <= q < before.len() implies #[trigger] kinds.deep_view()[q] == old(
                kinds,
            ).deep_view()[q] by {
            assert(kinds.deep_view()[q] == kinds@[q]@);
            assert(kinds@[q] == before[q]);
            assert(old(kinds).deep_view()[q] == before[q]@);
        }
        assert(kinds.deep_view()[before.len() as int] == kinds@[before.len() as int]@);
    }
}

/// No `Sum` or `Product` node keeps exactly one child: single-factor
/// products are pruned during construction.
pub open spec fn no_single_child(ks: Seq<KindView>) -> bool {
    forall|p: int|
        0 <= p < ks.len() && kind_is_internal(#[trigger] ks[p]) ==> kind_children(ks[p]).len()
            != 1
}

/// View of a suffix list: each element's operator and slab.
pub open spec fn rexlist_view(l: Seq<(Option<BinOp>, Rex)>) -> Seq<(Option<BinOp>, Seq<KindView>)> {
    l.map_values(|p: (Option<BinOp>, Rex)| (p.0, p.1@))
}

/// A slab with every child index moved up by `off`, element for element.
pub open spec fn shifted_slab(r: Seq<KindView>, off: int) -> Seq<KindView> {
    Seq::new(r.len(), |i: int| shift_kind(r[i], off))
}

/// The slab of a product: a root placeholder followed by `self` and the
/// first `n` suffix slabs, each appended contiguously with shifted indices.
pub open spec fn product_ops_upto(
    self_v: Seq<KindView>,
    list: Seq<(Option<BinOp>, Seq<KindView>)>,
    n: int,
) -> Seq<KindView>
    decreases n,
{
    if n <= 0 {
        seq![KindView::Product(Seq::<RexID>::empty())] + shifted_slab(self_v, 1)
    } else {
        let prev = product_ops_upto(self_v, list, n - 1);
        prev + shifted_slab(list[n - 1].1, prev.len() as int)
    }
}

/// The children of the product root: the start of each operand's block.
pub open spec fn product_root_ids(
    self_v: Seq<KindView>,
    list: Seq<(Option<BinOp>, Seq<KindView>)>,
    n: int,
) -> Seq<RexID>
    decreases n,
{
    if n <= 0 {
        seq![1 as RexID]
    } else {
        product_root_ids(self_v, list, n - 1).push(
            product_ops_upto(self_v, list, n - 1).len() as RexID,
        )
    }
}

/// The combined slab when every suffix element is juxtaposed: one `Product`
/// root over `self` and each suffix expression, in order.
pub open spec fn product_build(
    self_v: Seq<KindView>,
    list: Seq<(Option<BinOp>, Seq<KindView>)>,
) -> Seq<KindView> {
    product_ops_upto(self_v, list, list.len() as int).update(
        0,
        KindView::Product(product_root_ids(self_v, list, list.len() as int)),
    )
}

/// The state of the sum construction: the slab built so far, the addend
/// roots collected, the factor roots of the open juxtaposition run, and the
/// position its `Product` node (or the lone addend) stands at.
#[verifier::ext_equal]
pub struct BuildView {
    pub kinds: Seq<KindView>,
    pub sum_ids: Seq<RexID>,
    pub product_ids: Seq<RexID>,
    pub anchor: int,
}

/// The sum construction before any suffix element: the `Sum` placeholder, a
/// `Product` placeholder when `self` opens a run, then `self`'s slab.
pub open spec fn sum_build_init(
    self_v: Seq<KindView>,
    list: Seq<(Option<BinOp>, Seq<KindView>)>,
) -> BuildView {
    if list[0].0 is None {
        let base = seq![
            KindView::Sum(Seq::<RexID>::empty()),
            KindView::Product(Seq::<RexID>::empty()),
        ];
        BuildView {
            kinds: base + shifted_slab(self_v, 2),
            sum_ids: Seq::empty(),
            product_ids: seq![2 as RexID],
            anchor: 1,
        }
    } else {
        let base = seq![KindView::Sum(Seq::<RexID>::empty())];
        BuildView {
            kinds: base + shifted_slab(self_v, 1),
            sum_ids: Seq::empty(),
            product_ids: Seq::empty(),
            anchor: 1,
        }
    }
}

/// One suffix element folded into the sum construction: `+` closes the open
/// run (filling its `Product` placeholder when it has several factors) and
/// opens the next addend; juxtaposition extends the run.
pub open spec fn sum_build_step(
    st: BuildView,
    op_is_add: bool,
    followed_next: bool,
    rexv: Seq<KindView>,
) -> BuildView {
    if op_is_add {
        let st1 = if st.product_ids.len() > 0 {
            BuildView {
                kinds: st.kinds.update(st.anchor, KindView::Product(st.product_ids)),
                sum_ids: st.sum_ids,
                product_ids: Seq::empty(),
                anchor: st.anchor,
            }
        } else {
            st
        };
        let st2 = BuildView {
            kinds: st1.kinds,
            sum_ids: st1.sum_ids.push(st1.anchor as RexID),
            product_ids: st1.product_ids,
            anchor: st1.kinds.len() as int,
        };
        let st3 = if followed_next {
            BuildView {
                kinds: st2.kinds.push(KindView::Product(Seq::<RexID>::empty())),
                sum_ids: st2.sum_ids,
                product_ids: seq![(st2.kinds.len() + 1) as RexID],
                anchor: st2.anchor,
            }
        } else {
            st2
        };
        BuildView {
            kinds: st3.kinds + shifted_slab(rexv, st3.kinds.len() as int),
            sum_ids: st3.sum_ids,
            product_ids: st3.product_ids,
            anchor: st3.anchor,
        }
    } else {
        BuildView {
            kinds: st.kinds + shifted_slab(rexv, st.kinds.len() as int),
            sum_ids: st.sum_ids,
            product_ids: st.product_ids.push(st.kinds.len() as RexID),
            anchor: st.anchor,
        }
    }
}

/// The sum construction after the first `n` suffix elements.
pub open spec fn sum_build_upto(
    self_v: Seq<KindView>,
    list: Seq<(Option<BinOp>, Seq<KindView>)>,
    n: int,
) -> BuildView
    decreases n,
{
    if n <= 0 {
        sum_build_init(self_v, list)
    } else {
        let st = sum_build_upto(self_v, list, n - 1);
        sum_build_step(st, list[n - 1].0 is Some, n < list.len() && list[n].0 is None, list[n - 1].1)
    }
}

/// The combined slab when the suffix holds at least one `+`: a `Sum` root
/// whose addends are the maximal juxtaposition runs, a run of two or more
/// becoming a `Product` node, a singleton run standing directly.
pub open spec fn sum_build(
    self_v: Seq<KindView>,
    list: Seq<(Option<BinOp>, Seq<KindView>)>,
) -> Seq<KindView> {
    let st = sum_build_upto(self_v, list, list.len() as int);
    let st1 = if st.product_ids.len() > 0 {
        BuildView {
            kinds: st.kinds.update(st.anchor, KindView::Product(st.product_ids)),
            sum_ids: st.sum_ids,
            product_ids: Seq::empty(),
            anchor: st.anchor,
        }
    } else {
        st
    };
    st1.kinds.update(0, KindView::Sum(st1.sum_ids.push(st1.anchor as RexID)))
}

/// What `with_more` builds: `self` for an empty suffix; one product when
/// every suffix element is juxtaposed; otherwise the sum of maximal runs.
pub open spec fn with_more_spec(
    self_v: Seq<KindView>,
    list: Seq<(Option<BinOp>, Seq<KindView>)>,
) -> Seq<KindView> {
    if list.len() == 0 {
        self_v
    } else if forall|w: int| 0 <= w < list.len() ==> (#[trigger] list[w]).0 is None {
        product_build(self_v, list)
    } else {
        sum_build(self_v, list)
    }
}

impl Rex {
    /// Combines `self` with a list of suffix factors and addends.  A `None`
    /// operator means juxtaposition (product); the only allowed binary
    /// operator is `+`.  If every suffix element is juxtaposed, the result
    /// is a single `Product`; otherwise it is a `Sum` whose addends are the
    /// maximal runs of juxtaposed expressions, with single-factor products
    /// pruned.  An empty suffix returns `self` unchanged.
    pub fn with_more(self, rexlist: Vec<(Option<BinOp>, Rex)>) -> (r: Rex)
        requires
            self.wf(),
            self@.len() > 0,
            no_single_child(self@),
            forall|k: int|
                0 <= k < rexlist@.len() ==> {
                    &&& (#[trigger] rexlist@[k]).1.wf()
                    &&& rexlist@[k].1@.len() > 0
                    &&& no_single_child(rexlist@[k].1@)
                    &&& (rexlist@[k].0 is None || rexlist@[k].0 == Some(BinOp::Add))
                },
        ensures
            r@ == with_more_spec(self@, rexlist_view(rexlist@)),
            r.wf(),
            r@.len() > 0,
            no_single_child(r@),
    {
        let ghost selfv = self@;
        let ghost full = rexlist_view(rexlist@);
        proof {
            assert forall|w: int| 0 <= w < full.len() implies #[trigger] full[w] == (
            rexlist@[w].0,
            rexlist@[w].1@,
            ) by {}
        }
        if rexlist.len() == 0 {
            return self;
        }
        let mut plusless = true;
        let mut k: usize = 0;
        while k < rexlist.len()
            invariant
                0 <= k <= rexlist.len(),
                plusless <==> (forall|w: int| 0 <= w < k ==> (#[trigger] rexlist@[w]).0 is None),
            decreases rexlist.len() - k,
        {
            if rexlist[k].0.is_some() {
                plusless = false;
                proof {
                    assert(!((rexlist@[k as int]).0 is None));
                }
            }
            k += 1;
        }
        proof {
            if plusless {
                assert forall|w: int| 0 <= w < full.len() implies (#[trigger] full[w]).0
                    is None by {
                    assert(full[w].0 == rexlist@[w].0);
                }
            } else {
                let w = choose|w: int| 0 <= w < rexlist@.len() && !((rexlist@[w]).0 is None);
                assert(!(full[w].0 is None));
            }
        }

        let mut rest = rexlist;
        if plusless {
            // One product over `self` and every suffix expression.
            let mut kinds: Vec<RexKind> = Vec::new();
            push_kind(&mut kinds, RexKind::Product(RexTree { ids: Vec::new() }));
            let mut ids: Vec<RexID> = Vec::new();
            ids.push(1);
            let ghost dva0 = kinds.deep_view();
            let ghost rawa0: Seq<RexKind> = kinds@;
            let mut offset = append_with_offset(&mut kinds, self);
            proof {
                assert(dva0 =~= seq![KindView::Product(Seq::<RexID>::empty())]);
                assert forall|q: int|
                    0 <= q < kinds.deep_view().len() implies #[trigger] kinds.deep_view()[q] == (
                dva0 + shifted_slab(selfv, 1))[q] by {
                    assert(kinds.deep_view()[q] == kinds@[q]@);
                    if q < 1 {
                        assert(kinds@[q] == rawa0[q]);
                        assert(dva0[q] == rawa0[q]@);
                    } else {
                        assert((kinds@[1 + (q - 1)])@ == shift_kind(selfv[q - 1], 1));
                    }
                }
                assert(kinds.deep_view() =~= product_ops_upto(selfv, full, 0));
                assert(ids@ =~= product_root_ids(selfv, full, 0));
                assert(rexlist_view(rest@) =~= full.skip(0));
                assert(kind_children(dva0[0]).len() == 0);
                assert(no_single_child(dva0));
            }
            while rest.len() > 0
                invariant
                    kinds@.len() == offset,
                    kinds.deep_view().len() == offset,
                    offset > 1,
                    partial_wf(kinds.deep_view(), 0),
                    rex_payload_wf(kinds.deep_view()),
                    ids@.len() > 0,
                    ids@.len() == 1 + (full.len() - rest@.len()),
                    no_single_child(kinds.deep_view()),
                    forall|w: int| 0 <= w < ids@.len() ==> 0 < (#[trigger] ids@[w]) < offset,
                    forall|w: int|
                        0 <= w < rest@.len() ==> (#[trigger] rest@[w]).1.wf() && rest@[w].1@.len()
                            > 0 && no_single_child(rest@[w].1@),
                    rest@.len() <= full.len(),
                    rexlist_view(rest@) == full.skip(full.len() - rest@.len()),
                    kinds.deep_view() == product_ops_upto(
                        selfv,
                        full,
                        full.len() - rest@.len(),
                    ),
                    ids@ == product_root_ids(selfv, full, full.len() - rest@.len()),
                decreases rest.len(),
            {
                let ghost done = full.len() - rest@.len();
                let ghost restv = rest@;
                let (_, rex) = rest.remove(0);
                let ghost rexv = rex@;
                proof {
                    assert(rexlist_view(restv)[0] == (restv[0].0, restv[0].1@));
                    assert(full.skip(done as int)[0] == full[done as int]);
                    assert(rexv == full[done as int].1);
                    assert forall|w: int|
                        0 <= w < rest@.len() implies #[trigger] rexlist_view(rest@)[w] == full.skip(
                        done + 1,
                    )[w] by {
                        assert(rest@[w] == restv[w + 1]);
                        assert(rexlist_view(restv)[w + 1] == (restv[w + 1].0, restv[w + 1].1@));
                        assert(full.skip(done as int)[w + 1] == full[done + 1 + w]);
                    }
                    assert(rexlist_view(rest@) =~= full.skip(done + 1));
                }
                ids.push(offset);
                proof {
                    assert(no_single_child(restv[0].1@));
                }
                let ghost dva = kinds.deep_view();
                let ghost rawa: Seq<RexKind> = kinds@;
                offset = append_with_offset(&mut kinds, rex);
                proof {
                    assert(ids@ =~= product_root_ids(selfv, full, done + 1));
                    assert forall|q: int|
                        0 <= q < kinds.deep_view().len() implies #[trigger] kinds.deep_view()[q]
                        == (dva + shifted_slab(rexv, dva.len() as int))[q] by {
                        assert(kinds.deep_view()[q] == kinds@[q]@);
                        if q < dva.len() {
                            assert(kinds@[q] == rawa[q]);
                            assert(dva[q] == rawa[q]@);
                        } else {
                            assert((kinds@[dva.len() + (q - dva.len())])@ == shift_kind(
                                rexv[q - dva.len()],
                                dva.len() as int,
                            ));
                        }
                    }
                    assert(kinds.deep_view() =~= product_ops_upto(selfv, full, done + 1));
                }
            }
            let ghost idsv = ids@;
            let ghost dvb = kinds.deep_view();
            replace_at(&mut kinds, 0, RexKind::Product(RexTree { ids }));
            let r = Rex { kinds };
            proof {
                assert forall|q: int|
                    0 <= q < r@.len() implies #[trigger] r@[q] == product_build(selfv, full)[q] by {
                    if q > 0 {
                        assert(r@[q] == dvb[q]);
                    } else {
                        assert(r@[0] == KindView::Product(idsv));
                    }
                }
                assert(r@ =~= product_build(selfv, full));
                assert forall|p: int|
                    0 <= p < r@.len() && kind_is_internal(#[trigger] r@[p]) implies {
                    let cs = kind_children(r@[p]);
                    cs.len() > 0 && forall|c: int|
                        0 <= c < cs.len() ==> p < (#[trigger] cs[c]) < r@.len()
                } by {
                    if p == 0 {
                        assert(kind_children(r@[0]) == idsv);
                    } else {
                        assert(r@[p] == dvb[p]);
                        assert(kind_is_internal(dvb[p]));
                    }
                }
                assert forall|p: int| 0 <= p < r@.len() implies match #[trigger] r@[p] {
                    KindView::Thin(t) => tar_wf(t),
                    KindView::Fat(parts) => far_wf(parts),
                    _ => true,
                } by {
                    if p > 0 {
                        assert(r@[p] == dvb[p]);
                    }
                }
                assert forall|p: int|
                    0 <= p < r@.len() && kind_is_internal(#[trigger] r@[p]) implies kind_children(
                    r@[p],
                ).len() != 1 by {
                    if p == 0 {
                        assert(kind_children(r@[0]) == idsv);
                        assert(idsv.len() == 1 + full.len());
                    } else {
                        assert(r@[p] == dvb[p]);
                        assert(kind_is_internal(dvb[p]));
                    }
                }
            }
            r
        } else {
            // A sum of maximal runs of juxtaposed expressions.
            proof {
                assert(exists|k: int| 0 <= k < full.len() && (#[trigger] full[k].0) is Some);
            }
            let mut kinds: Vec<RexKind> = Vec::new();
            push_kind(&mut kinds, RexKind::Sum(RexTree { ids: Vec::new() }));
            let mut sum_ids: Vec<RexID> = Vec::new();
            let mut product_ids: Vec<RexID> = Vec::new();
            let mut anchor: usize = 1;

            let first_followed = rest[0].0.is_none();
            proof {
                assert(full[0].0 == rest@[0].0);
            }
            if first_followed {
                let ph: Vec<RexID> = Vec::new();
                proof {
                    assert(ph@ =~= Seq::<RexID>::empty());
                }
                push_kind(&mut kinds, RexKind::Product(RexTree { ids: ph }));
                product_ids.push(2);
                proof {
                    assert(kinds.deep_view()[1] == KindView::Product(Seq::<RexID>::empty()));
                }
            }
            let ghost dva0 = kinds.deep_view();
            let ghost rawa0: Seq<RexKind> = kinds@;
            let mut offset = append_with_offset(&mut kinds, self);
            proof {
                if product_ids@.len() > 0 {
                    assert(kinds@[anchor as int] == rawa0[anchor as int]);
                    assert(kinds.deep_view()[anchor as int] == kinds@[anchor as int]@);
                    assert(dva0[anchor as int] == rawa0[anchor as int]@);
                }
                let st0 = sum_build_init(selfv, full);
                assert forall|q: int|
                    0 <= q < kinds.deep_view().len() implies #[trigger] kinds.deep_view()[q] == (
                dva0 + shifted_slab(selfv, dva0.len() as int))[q] by {
                    assert(kinds.deep_view()[q] == kinds@[q]@);
                    if q < dva0.len() {
                        assert(kinds@[q] == rawa0[q]);
                        assert(dva0[q] == rawa0[q]@);
                    } else {
                        assert((kinds@[dva0.len() + (q - dva0.len())])@ == shift_kind(
                            selfv[q - dva0.len()],
                            dva0.len() as int,
                        ));
                    }
                }
                if first_followed {
                    assert(dva0 =~= seq![
                        KindView::Sum(Seq::<RexID>::empty()),
                        KindView::Product(Seq::<RexID>::empty()),
                    ]);
                    assert(product_ids@ =~= seq![2 as RexID]);
                } else {
                    assert(dva0 =~= seq![KindView::Sum(Seq::<RexID>::empty())]);
                    assert(product_ids@ =~= Seq::<RexID>::empty());
                }
                assert(kinds.deep_view() =~= st0.kinds);
                assert(sum_ids@ =~= st0.sum_ids);
                assert(rexlist_view(rest@) =~= full.skip(0));
                assert forall|p: int|
                    0 <= p < dva0.len() && kind_is_internal(#[trigger] dva0[p]) implies
                    kind_children(dva0[p]).len() != 1 by {
                    assert(kind_children(dva0[p]).len() == 0);
                }
                assert(no_single_child(dva0));
            }
            while rest.len() > 0
                invariant
                    kinds@.len() == offset,
                    kinds.deep_view().len() == offset,
                    1 <= anchor < offset,
                    partial_wf(
                        kinds.deep_view(),
                        if product_ids@.len() > 0 {
                            anchor as int
                        } else {
                            -1
                        },
                    ),
                    rex_payload_wf(kinds.deep_view()),
                    product_ids@.len() > 0 ==> kinds.deep_view()[anchor as int]
                        == KindView::Product(Seq::<RexID>::empty()),
                    forall|w: int|
                        0 <= w < product_ids@.len() ==> anchor < (#[trigger] product_ids@[w])
                            < offset,
                    forall|w: int| 0 <= w < sum_ids@.len() ==> 0 < (#[trigger] sum_ids@[w]) < offset,
                    forall|w: int|
                        0 <= w < rest@.len() ==> {
                            &&& (#[trigger] rest@[w]).1.wf()
                            &&& rest@[w].1@.len() > 0
                            &&& no_single_child(rest@[w].1@)
                            &&& (rest@[w].0 is None || rest@[w].0 == Some(BinOp::Add))
                        },
                    rest@.len() > 0 && rest@[0].0 is None ==> product_ids@.len() > 0,
                    product_ids@.len() == 1 ==> (rest@.len() > 0 && rest@[0].0 is None),
                    no_single_child(kinds.deep_view()),
                    (exists|k: int|
                        0 <= k < full.len() - rest@.len() && (#[trigger] full[k].0) is Some)
                        ==> sum_ids@.len() >= 1,
                    rest@.len() <= full.len(),
                    rexlist_view(rest@) == full.skip(full.len() - rest@.len()),
                    ({
                        let st = sum_build_upto(selfv, full, full.len() - rest@.len());
                        &&& kinds.deep_view() == st.kinds
                        &&& sum_ids@ == st.sum_ids
                        &&& product_ids@ == st.product_ids
                        &&& anchor as int == st.anchor
                    }),
                decreases rest.len(),
            {
                let ghost done = full.len() - rest@.len();
                let ghost st0 = sum_build_upto(selfv, full, done as int);
                let is_add = rest[0].0.is_some();
                let followed_next = if 1 < rest.len() {
                    rest[1].0.is_none()
                } else {
                    false
                };
                proof {
                    assert(rexlist_view(rest@)[0] == (rest@[0].0, rest@[0].1@));
                    assert(full.skip(done as int)[0] == full[done as int]);
                    assert(is_add == (full[done as int].0 is Some));
                    if 1 < rest@.len() {
                        assert(rexlist_view(rest@)[1] == (rest@[1].0, rest@[1].1@));
                        assert(full.skip(done as int)[1] == full[done + 1]);
                        assert(followed_next == (full[done + 1].0 is None));
                    } else {
                        assert(done + 1 == full.len());
                    }
                }
                let ghost restv = rest@;
                let (_, rex) = rest.remove(0);
                let ghost rexv = rex@;
                proof {
                    assert(rexv == full[done as int].1);
                    assert(no_single_child(restv[0].1@));
                    assert forall|w: int|
                        0 <= w < rest@.len() implies #[trigger] rexlist_view(rest@)[w] == full.skip(
                        done + 1,
                    )[w] by {
                        assert(rest@[w] == restv[w + 1]);
                        assert(rexlist_view(restv)[w + 1] == (restv[w + 1].0, restv[w + 1].1@));
                        assert(full.skip(done as int)[w + 1] == full[done + 1 + w]);
                    }
                    assert(rexlist_view(rest@) =~= full.skip(done + 1));
                }
                if is_add {
                    if product_ids.len() > 0 {
                        let ghost dvb = kinds.deep_view();
                        let ghost pidsv = product_ids@;
                        let filled = product_ids;
                        product_ids = Vec::new();
                        replace_at(&mut kinds, anchor, RexKind::Product(RexTree { ids: filled }));
                        proof {
                            assert(kind_children(kinds.deep_view()[anchor as int]) == pidsv);
                            assert(kinds.deep_view() =~= dvb.update(
                                anchor as int,
                                KindView::Product(pidsv),
                            ));
                            assert(product_ids@ =~= Seq::<RexID>::empty());
                            assert(pidsv.len() >= 2);
                            assert forall|p: int|
                                0 <= p < kinds.deep_view().len() && kind_is_internal(
                                    #[trigger] kinds.deep_view()[p],
                                ) implies kind_children(kinds.deep_view()[p]).len() != 1 by {
                                if p != anchor {
                                    assert(kinds.deep_view()[p] == dvb[p]);
                                    assert(kind_is_internal(dvb[p]));
                                }
                            }
                            assert forall|p: int|
                                1 <= p < kinds.deep_view().len() && kind_is_internal(
                                    #[trigger] kinds.deep_view()[p],
                                ) implies {
                                let cs = kind_children(kinds.deep_view()[p]);
                                cs.len() > 0 && forall|c: int|
                                    0 <= c < cs.len() ==> p < (#[trigger] cs[c])
                                        < kinds.deep_view().len()
                            } by {
                                if p != anchor {
                                    assert(kinds.deep_view()[p] == dvb[p]);
                                    assert(kind_is_internal(dvb[p]));
                                }
                            }
                            assert forall|p: int|
                                0 <= p < kinds.deep_view().len() implies match #[trigger] kinds.deep_view()[p] {
                                KindView::Thin(t) => tar_wf(t),
                                KindView::Fat(parts) => far_wf(parts),
                                _ => true,
                            } by {
                                if p != anchor {
                                    assert(kinds.deep_view()[p] == dvb[p]);
                                }
                            }
                        }
                    }
                    sum_ids.push(anchor);
                    anchor = offset;
                    if followed_next {
                        let ghost dvb2 = kinds.deep_view();
                        let ph: Vec<RexID> = Vec::new();
                        proof {
                            assert(ph@ =~= Seq::<RexID>::empty());
                        }
                        push_kind(&mut kinds, RexKind::Product(RexTree { ids: ph }));
                        offset = kinds.len();
                        product_ids.push(offset);
                        proof {
                            assert(kinds.deep_view()[anchor as int] == KindView::Product(
                                Seq::<RexID>::empty(),
                            ));
                            assert(kinds.deep_view() =~= dvb2.push(KindView::Product(
                                Seq::<RexID>::empty(),
                            )));
                            assert(product_ids@ =~= seq![(dvb2.len() + 1) as RexID]);
                            assert forall|p: int|
                                0 <= p < kinds.deep_view().len() && kind_is_internal(
                                    #[trigger] kinds.deep_view()[p],
                                ) implies kind_children(kinds.deep_view()[p]).len() != 1 by {
                                if p < dvb2.len() {
                                    assert(kinds.deep_view()[p] == dvb2[p]);
                                    assert(kind_is_internal(dvb2[p]));
                                } else {
                                    assert(kind_children(kinds.deep_view()[p]).len() == 0);
                                }
                            }
                            assert forall|p: int|
                                1 <= p < kinds.deep_view().len() && p != anchor
                                    && kind_is_internal(#[trigger] kinds.deep_view()[p]) implies {
                                let cs = kind_children(kinds.deep_view()[p]);
                                cs.len() > 0 && forall|c: int|
                                    0 <= c < cs.len() ==> p < (#[trigger] cs[c])
                                        < kinds.deep_view().len()
                            } by {
                                assert(kinds.deep_view()[p] == dvb2[p]);
                                assert(kind_is_internal(dvb2[p]));
                            }
                            assert forall|p: int|
                                0 <= p < kinds.deep_view().len() implies match #[trigger] kinds.deep_view()[p] {
                                KindView::Thin(t) => tar_wf(t),
                                KindView::Fat(parts) => far_wf(parts),
                                _ => true,
                            } by {
                                if p < dvb2.len() {
                                    assert(kinds.deep_view()[p] == dvb2[p]);
                                }
                            }
                        }
                    }
                    let ghost dva = kinds.deep_view();
                    let ghost rawa: Seq<RexKind> = kinds@;
                    offset = append_with_offset(&mut kinds, rex);
                    proof {
                        if product_ids@.len() > 0 {
                            assert(kinds@[anchor as int] == rawa[anchor as int]);
                            assert(kinds.deep_view()[anchor as int] == kinds@[anchor as int]@);
                            assert(dva[anchor as int] == rawa[anchor as int]@);
                        }
                        assert forall|q: int|
                            0 <= q < kinds.deep_view().len() implies #[trigger] kinds.deep_view()[q]
                            == (dva + shifted_slab(rexv, dva.len() as int))[q] by {
                            assert(kinds.deep_view()[q] == kinds@[q]@);
                            if q < dva.len() {
                                assert(kinds@[q] == rawa[q]);
                                assert(dva[q] == rawa[q]@);
                            } else {
                                assert((kinds@[dva.len() + (q - dva.len())])@ == shift_kind(
                                    rexv[q - dva.len()],
                                    dva.len() as int,
                                ));
                            }
                        }
                        assert(kinds.deep_view() =~= dva + shifted_slab(
                            rexv,
                            dva.len() as int,
                        ));
                        let stn = sum_build_step(
                            st0,
                            full[done as int].0 is Some,
                            done + 1 < full.len() && full[done + 1].0 is None,
                            rexv,
                        );
                        assert(kinds.deep_view() =~= stn.kinds);
                        assert(sum_ids@ =~= stn.sum_ids);
                        assert(product_ids@ =~= stn.product_ids);
                        assert(anchor as int == stn.anchor);
                    }
                } else {
                    product_ids.push(offset);
                    let ghost dva = kinds.deep_view();
                    let ghost rawa: Seq<RexKind> = kinds@;
                    offset = append_with_offset(&mut kinds, rex);
                    proof {
                        assert(kinds@[anchor as int] == rawa[anchor as int]);
                        assert(kinds.deep_view()[anchor as int] == kinds@[anchor as int]@);
                        assert(dva[anchor as int] == rawa[anchor as int]@);
                        assert forall|q: int|
                            0 <= q < kinds.deep_view().len() implies #[trigger] kinds.deep_view()[q]
                            == (dva + shifted_slab(rexv, dva.len() as int))[q] by {
                            assert(kinds.deep_view()[q] == kinds@[q]@);
                            if q < dva.len() {
                                assert(kinds@[q] == rawa[q]);
                                assert(dva[q] == rawa[q]@);
                            } else {
                                assert((kinds@[dva.len() + (q - dva.len())])@ == shift_kind(
                                    rexv[q - dva.len()],
                                    dva.len() as int,
                                ));
                            }
                        }
                        assert(kinds.deep_view() =~= dva + shifted_slab(
                            rexv,
                            dva.len() as int,
                        ));
                        let stn = sum_build_step(
                            st0,
                            full[done as int].0 is Some,
                            done + 1 < full.len() && full[done + 1].0 is None,
                            rexv,
                        );
                        assert(kinds.deep_view() =~= stn.kinds);
                        assert(sum_ids@ =~= stn.sum_ids);
                        assert(product_ids@ =~= stn.product_ids);
                        assert(anchor as int == stn.anchor);
                    }
                }
            }
            let ghost stf = sum_build_upto(selfv, full, full.len() as int);
            if product_ids.len() > 0 {
                let ghost dvb = kinds.deep_view();
                let ghost pidsv = product_ids@;
                let filled = product_ids;
                product_ids = Vec::new();
                replace_at(&mut kinds, anchor, RexKind::Product(RexTree { ids: filled }));
                proof {
                    assert(kind_children(kinds.deep_view()[anchor as int]) == pidsv);
                    assert(kinds.deep_view() =~= dvb.update(
                        anchor as int,
                        KindView::Product(pidsv),
                    ));
                    assert forall|p: int|
                        1 <= p < kinds.deep_view().len() && kind_is_internal(
                            #[trigger] kinds.deep_view()[p],
                        ) implies {
                        let cs = kind_children(kinds.deep_view()[p]);
                        cs.len() > 0 && forall|c: int|
                            0 <= c < cs.len() ==> p < (#[trigger] cs[c]) < kinds.deep_view().len()
                    } by {
                        if p != anchor {
                            assert(kinds.deep_view()[p] == dvb[p]);
                            assert(kind_is_internal(dvb[p]));
                        }
                    }
                    assert forall|p: int|
                        0 <= p < kinds.deep_view().len() implies match #[trigger] kinds.deep_view()[p] {
                        KindView::Thin(t) => tar_wf(t),
                        KindView::Fat(parts) => far_wf(parts),
                        _ => true,
                    } by {
                        if p != anchor {
                            assert(kinds.deep_view()[p] == dvb[p]);
                        }
                    }
                }
            }
            sum_ids.push(anchor);
            let ghost sidsv = sum_ids@;
            let ghost dvb = kinds.deep_view();
            replace_at(&mut kinds, 0, RexKind::Sum(RexTree { ids: sum_ids }));
            let r = Rex { kinds };
            proof {
                assert forall|q: int|
                    0 <= q < r@.len() implies #[trigger] r@[q] == sum_build(selfv, full)[q] by {
                    if q > 0 {
                        assert(r@[q] == dvb[q]);
                    } else {
                        assert(r@[0] == KindView::Sum(sidsv));
                    }
                }
                assert(r@ =~= sum_build(selfv, full));
                assert forall|p: int|
                    0 <= p < r@.len() && kind_is_internal(#[trigger] r@[p]) implies {
                    let cs = kind_children(r@[p]);
                    cs.len() > 0 && forall|c: int|
                        0 <= c < cs.len() ==> p < (#[trigger] cs[c]) < r@.len()
                } by {
                    if p == 0 {
                        assert(kind_children(r@[0]) == sidsv);
                    } else {
                        assert(r@[p] == dvb[p]);
                        assert(kind_is_internal(dvb[p]));
                    }
                }
                assert forall|p: int| 0 <= p < r@.len() implies match #[trigger] r@[p] {
                    KindView::Thin(t) => tar_wf(t),
                    KindView::Fat(parts) => far_wf(parts),
                    _ => true,
                } by {
                    if p > 0 {
                        assert(r@[p] == dvb[p]);
                    }
                }
                assert(sidsv.len() >= 2);
                assert forall|p: int|
                    0 <= p < r@.len() && kind_is_internal(#[trigger] r@[p]) implies kind_children(
                    r@[p],
                ).len() != 1 by {
                    if p == 0 {
                        assert(kind_children(r@[0]) == sidsv);
                    } else {
                        assert(r@[p] == dvb[p]);
                        assert(kind_is_internal(dvb[p]));
                    }
                }
            }
            r
        }
    }
}

/// Facts pass two needs of each kind pass one produced.
pub open spec fn interim_kind_ok(
    ks: Seq<KindView>,
    nk: Seq<KindView>,
    flags: Seq<bool>,
    j: int,
) -> bool {
    &&& !(nk[j] is Fat)
    &&& match nk[j] {
        KindView::Thin(t) => tar_wf(t),
        _ => true,
    }
    &&& (flags[j] ==> nk[j] is Sum && kind_children(nk[j]).len() > 0 && (forall|c: int|
        0 <= c < kind_children(nk[j]).len() ==> j < (#[trigger] kind_children(nk[j])[c]) < nk.len()))
    &&& (!flags[j] && kind_is_internal(nk[j]) ==> exists|p: int|
        0 <= p < ks.len() && nk[j] == ks[p] && j == new_index(ks, p))
    &&& fit_rex(ks)[j] == (if flags[j] {
        nk[j]
    } else {
        remap_kind(ks, nk[j])
    })
}

impl Rex {
    /// Returns a copy of this rule expression converted to the normal form:
    /// every fat rule is replaced by a `Sum` of the thin rules FIT yields
    /// for it, appended right after the `Sum`; all child indices are
    /// translated.  The result never holds a fat kind, and the structural
    /// invariants hold of it.
    pub fn fit_clone(&self) -> (r: Rex)
        requires
            self.wf(),
        ensures
            r@ == fit_rex(self@),
            rex_wf(r@),
            rex_payload_wf(r@),
            no_fat(r@),
    {
        let ghost ks = self@;
        proof {
            lemma_fit_upto_len(ks, ks.len() as int);
            lemma_new_index_mono(ks, 0, ks.len() as int);
        }
        let mut nk: Vec<RexKind> = Vec::new();
        let mut flags: Vec<bool> = Vec::new();
        let mut id_map: Vec<usize> = Vec::new();
        let mut i: usize = 0;
        while i < self.kinds.len()
            invariant
                0 <= i <= self.kinds.len(),
                ks == self@,
                self.wf(),
                ks.len() == self.kinds@.len(),
                id_map@.len() == i,
                forall|k: int| 0 <= k < i ==> (#[trigger] id_map@[k]) as int == new_index(ks, k),
                nk.deep_view().len() == new_index(ks, i as int),
                fit_upto(ks, i as int).len() == nk.deep_view().len(),
                flags@.len() == nk.deep_view().len(),
                forall|j: int|
                    0 <= j < nk.deep_view().len() ==> interim_kind_ok(
                        ks,
                        nk.deep_view(),
                        flags@,
                        j,
                    ),
                fit_rex(ks).len() == new_index(ks, ks.len() as int),
                new_index(ks, i as int) <= new_index(ks, ks.len() as int),
            decreases self.kinds.len() - i,
        {
            let pos = nk.len();
            id_map.push(pos);
            let ghost nk0 = nk.deep_view();
            let ghost flags0 = flags@;
            proof {
                assert(self.kinds@[i as int]@ == ks[i as int]);
                lemma_fit_upto_len(ks, i as int);
                lemma_fit_upto_len(ks, i + 1);
                lemma_fit_upto_len(ks, ks.len() as int);
                lemma_new_index_mono(ks, i + 1, ks.len() as int);
                lemma_fit_upto_prefix(ks, i as int, ks.len() as int);
                lemma_fit_upto_prefix(ks, i + 1, ks.len() as int);
                assert(fit_upto(ks, i + 1) == fit_upto(ks, i as int) + (if ks[i as int] is Fat {
                    fat_block(ks, i as int)
                } else {
                    seq![remap_kind(ks, ks[i as int])]
                }));
            }
            match &self.kinds[i] {
                RexKind::Fat(far) => {
                    proof {
                        assert(rex_payload_wf(ks));
                        assert(far_wf(far@));
                    }
                    let tars = far.to_thin_rules();
                    let n = tars.len();
                    let ghost raw0: Seq<RexKind> = nk@;
                    let mut t: usize = 0;
                    while t < n
                        invariant
                            0 <= t <= n,
                            n == tars.deep_view().len(),
                            tars.deep_view() == fit_far(ks[i as int]->Fat_0),
                            forall|q: int|
                                0 <= q < n ==> fit_tar_ok(#[trigger] tars.deep_view()[q]),
                            nk@.len() == pos + t,
                            raw0.len() == pos,
                            forall|q: int| 0 <= q < pos ==> #[trigger] nk@[q] == raw0[q],
                            forall|q: int|
                                0 <= q < t ==> (#[trigger] nk@[pos + q])@ == KindView::Thin(
                                    tars.deep_view()[q],
                                ),
                            flags@.len() == pos + t,
                            forall|q: int| 0 <= q < pos ==> #[trigger] flags@[q] == flags0[q],
                            forall|q: int| 0 <= q < t ==> #[trigger] flags@[pos + q] == false,
                            flags0.len() == pos,
                            ks[i as int] is Fat,
                        decreases n - t,
                    {
                        let th = tars[t].clone();
                        proof {
                            assert(th@ == tars.deep_view()[t as int]);
                        }
                        nk.push(RexKind::Thin(th));
                        flags.push(false);
                        t += 1;
                    }
                    // Now `nk` holds the thin rules at positions pos..pos+n;
                    // the `Sum` over them goes in front, at `pos`.
                    let mut ids: Vec<RexID> = Vec::new();
                    let mut z: usize = 0;
                    let cur = nk.len();
                    proof {
                        assert(cur == pos + n);
                    }
                    while z < n
                        invariant
                            0 <= z <= n,
                            pos + n <= usize::MAX,
                            ids@.len() == z,
                            forall|c: int| 0 <= c < z ==> ids@[c] == pos + 1 + c,
                        decreases n - z,
                    {
                        ids.push(pos + 1 + z);
                        z += 1;
                    }
                    let ghost raw1: Seq<RexKind> = nk@;
                    let ghost flagsr1: Seq<bool> = flags@;
                    nk.insert(pos, RexKind::Sum(RexTree { ids }));
                    flags.insert(pos, true);
                    proof {
                        let tarsv = fit_far(ks[i as int]->Fat_0);
                        let blk = fat_block(ks, i as int);
                        assert(ids@ =~= Seq::new(
                            tarsv.len(),
                            |k: int| (new_index(ks, i as int) + 1 + k) as RexID,
                        ));
                        assert(blk[0] == KindView::Sum(ids@));
                        assert(nk@.len() == pos + n + 1);
                        assert forall|q: int|
                            0 <= q < nk.deep_view().len() implies #[trigger] nk.deep_view()[q] == (
                        nk0 + blk)[q] by {
                            assert(nk.deep_view()[q] == nk@[q]@);
                            if q < pos {
                                assert(nk@[q] == raw1[q]);
                                assert(raw1[q] == raw0[q]);
                                assert(nk0[q] == raw0[q]@);
                            } else if q == pos {
                                assert(nk@[q]@ == KindView::Sum(ids@));
                            } else {
                                assert(nk@[q] == raw1[q - 1]);
                                assert(raw1[pos + (q - 1 - pos)]@ == KindView::Thin(
                                    tars.deep_view()[q - 1 - pos],
                                ));
                                assert((nk0 + blk)[q] == blk[q - pos]);
                                assert(blk[q - pos] == KindView::Thin(tarsv[q - pos - 1]));
                            }
                        }
                        assert(nk.deep_view() =~~= nk0 + blk);
                        assert forall|q: int| 0 <= q < flags@.len() implies #[trigger] flags@[q] == (
                        flags0 + seq![true] + Seq::new(n as nat, |w: int| false))[q] by {
                            if q < pos {
                                assert(flags@[q] == flagsr1[q]);
                                assert(flagsr1[q] == flags0[q]);
                            } else if q > pos {
                                assert(flags@[q] == flagsr1[q - 1]);
                                assert(flagsr1[pos + (q - 1 - pos)] == false);
                            }
                        }
                        assert(flags@ =~= flags0 + seq![true] + Seq::new(n as nat, |w: int| false));
                        assert forall|j: int| 0 <= j < nk.deep_view().len() implies interim_kind_ok(
                            ks,
                            nk.deep_view(),
                            flags@,
                            j,
                        ) by {
                            if j < pos {
                                assert(interim_kind_ok(ks, nk0, flags0, j));
                                assert(nk.deep_view()[j] == nk0[j]);
                                assert(flags@[j] == flags0[j]);
                                assert(fit_rex(ks)[j] == fit_upto(ks, i as int)[j]);
                            } else if j == pos {
                                assert(nk.deep_view()[j] == KindView::Sum(ids@));
                                assert(kind_children(nk.deep_view()[j]) == ids@);
                                assert(fit_rex(ks)[j] == fat_block(ks, i as int)[0]);
                            } else {
                                assert(nk.deep_view()[j] == KindView::Thin(
                                    tarsv[j - pos - 1],
                                ));
                                assert(fit_rex(ks)[j] == fat_block(ks, i as int)[j - pos]);
                                assert(fat_block(ks, i as int)[j - pos] == KindView::Thin(
                                    tarsv[j - pos - 1],
                                ));
                                assert(tar_wf(tarsv[j - pos - 1]));
                            }
                        }
                    }
                },
                other => {
                    let c = other.clone();
                    nk.push(c);
                    flags.push(false);
                    proof {
                        assert(nk.deep_view() =~~= nk0 + seq![ks[i as int]]);
                        assert(flags@ =~= flags0 + seq![false]);
                        assert forall|j: int| 0 <= j < nk.deep_view().len() implies interim_kind_ok(
                            ks,
                            nk.deep_view(),
                            flags@,
                            j,
                        ) by {
                            if j < pos {
                                assert(interim_kind_ok(ks, nk0, flags0, j));
                                assert(nk.deep_view()[j] == nk0[j]);
                                assert(flags@[j] == flags0[j]);
                                assert(fit_rex(ks)[j] == fit_upto(ks, i as int)[j]);
                            } else {
                                assert(nk.deep_view()[j] == ks[i as int]);
                                assert(fit_rex(ks)[j] == remap_kind(ks, ks[i as int]));
                                if kind_is_internal(ks[i as int]) {
                                    assert(0 <= (i as int) && (i as int) < ks.len()
                                        && nk.deep_view()[j] == ks[i as int] && j == new_index(
                                        ks,
                                        i as int,
                                    ));
                                }
                            }
                        }
                    }
                },
            }
            i += 1;
        }
        proof {
            lemma_fit_upto_len(ks, ks.len() as int);
        }
        let ghost nkv = nk.deep_view();
        let ghost flagsv = flags@;
        let total = nk.len();

        // Second pass: translate the children of every copied Sum or Product
        // through the index map; the kinds themselves are already in place.
        let mut out: Vec<RexKind> = Vec::new();
        let mut j: usize = 0;
        while j < nk.len()
            invariant
                0 <= j <= nk.len(),
                ks == self@,
                self.wf(),
                nk.deep_view() == nkv,
                flags@ == flagsv,
                flagsv.len() == nkv.len(),
                total == nkv.len(),
                id_map@.len() == ks.len(),
                forall|k: int| 0 <= k < ks.len() ==> (#[trigger] id_map@[k]) as int == new_index(
                    ks,
                    k,
                ),
                nkv.len() == new_index(ks, ks.len() as int),
                fit_rex(ks).len() == nkv.len(),
                forall|q: int| 0 <= q < nkv.len() ==> interim_kind_ok(ks, nkv, flagsv, q),
                out.deep_view().len() == j,
                forall|q: int| 0 <= q < j ==> out.deep_view()[q] == fit_rex(ks)[q],
                forall|q: int|
                    0 <= q < j && kind_is_internal(#[trigger] fit_rex(ks)[q]) ==> {
                        let ids = kind_children(fit_rex(ks)[q]);
                        ids.len() > 0 && forall|c: int|
                            0 <= c < ids.len() ==> q < (#[trigger] ids[c]) < nkv.len()
                    },
            decreases nk.len() - j,
        {
            let flagged = flags[j];
            if flagged {
                let c = nk[j].clone();
                out.push(c);
                proof {
                    assert(interim_kind_ok(ks, nkv, flagsv, j as int));
                    assert(out.deep_view()[j as int] == nkv[j as int]);
                    assert(fit_rex(ks)[j as int] == nkv[j as int]);
                    assert(kind_is_internal(nkv[j as int]));
                    assert forall|c: int|
                        0 <= c < kind_children(fit_rex(ks)[j as int]).len() implies j < (
                    #[trigger] kind_children(fit_rex(ks)[j as int])[c]) < nkv.len() by {
                        assert(kind_children(nkv[j as int])[c] == kind_children(
                            fit_rex(ks)[j as int],
                        )[c]);
                    }
                }
            } else {
                match &nk[j] {
                    RexKind::Product(tree) => {
                        proof {
                            assert(interim_kind_ok(ks, nkv, flagsv, j as int));
                            assert(kind_is_internal(nkv[j as int]));
                        }
                        let ghost p = choose|p: int|
                            0 <= p < ks.len() && nkv[j as int] == ks[p] && j as int == new_index(
                                ks,
                                p,
                            );
                        let mut ids2: Vec<RexID> = Vec::new();
                        let mut c: usize = 0;
                        while c < tree.ids.len()
                            invariant
                                0 <= c <= tree.ids.len(),
                                tree@ == kind_children(nkv[j as int]),
                                0 <= p < ks.len(),
                                nkv[j as int] == ks[p],
                                j as int == new_index(ks, p),
                                rex_wf(ks),
                                id_map@.len() == ks.len(),
                                forall|k: int|
                                    0 <= k < ks.len() ==> (#[trigger] id_map@[k]) as int
                                        == new_index(ks, k),
                                nkv.len() == new_index(ks, ks.len() as int),
                                ids2@.len() == c,
                                forall|q: int|
                                    0 <= q < c ==> (#[trigger] ids2@[q]) as int == new_index(
                                        ks,
                                        tree@[q] as int,
                                    ) && j < ids2@[q] < nkv.len(),
                            decreases tree.ids.len() - c,
                        {
                            let old_id = tree.ids[c];
                            proof {
                                assert(kind_children(ks[p])[c as int] == old_id);
                                assert(p < old_id < ks.len());
                                lemma_new_index_mono(ks, p + 1, old_id as int);
                                lemma_new_index_mono(ks, old_id as int + 1, ks.len() as int);
                            }
                            ids2.push(id_map[old_id]);
                            c += 1;
                        }
                        out.push(RexKind::Product(RexTree { ids: ids2 }));
                        proof {
                            assert(remap_ids(ks, tree@) =~= ids2@);
                            assert(out.deep_view()[j as int] == KindView::Product(ids2@));
                            assert(fit_rex(ks)[j as int] == remap_kind(ks, nkv[j as int]));
                            assert(kind_children(ks[p]).len() > 0);
                            assert(kind_children(fit_rex(ks)[j as int]) == ids2@);
                            assert forall|c: int| 0 <= c < ids2@.len() implies j < (
                            #[trigger] kind_children(fit_rex(ks)[j as int])[c]) < nkv.len() by {
                                assert(kind_children(fit_rex(ks)[j as int])[c] == ids2@[c]);
                            }
                        }
                    },
                    RexKind::Sum(tree) => {
                        proof {
                            assert(interim_kind_ok(ks, nkv, flagsv, j as int));
                            assert(kind_is_internal(nkv[j as int]));
                        }
                        let ghost p = choose|p: int|
                            0 <= p < ks.len() && nkv[j as int] == ks[p] && j as int == new_index(
                                ks,
                                p,
                            );
                        let mut ids2: Vec<RexID> = Vec::new();
                        let mut c: usize = 0;
                        while c < tree.ids.len()
                            invariant
                                0 <= c <= tree.ids.len(),
                                tree@ == kind_children(nkv[j as int]),
                                0 <= p < ks.len(),
                                nkv[j as int] == ks[p],
                                j as int == new_index(ks, p),
                                rex_wf(ks),
                                id_map@.len() == ks.len(),
                                forall|k: int|
                                    0 <= k < ks.len() ==> (#[trigger] id_map@[k]) as int
                                        == new_index(ks, k),
                                nkv.len() == new_index(ks, ks.len() as int),
                                ids2@.len() == c,
                                forall|q: int|
                                    0 <= q < c ==> (#[trigger] ids2@[q]) as int == new_index(
                                        ks,
                                        tree@[q] as int,
                                    ) && j < ids2@[q] < nkv.len(),
                            decreases tree.ids.len() - c,
                        {
                            let old_id = tree.ids[c];
                            proof {
                                assert(kind_children(ks[p])[c as int] == old_id);
                                assert(p < old_id < ks.len());
                                lemma_new_index_mono(ks, p + 1, old_id as int);
                                lemma_new_index_mono(ks, old_id as int + 1, ks.len() as int);
                            }
                            ids2.push(id_map[old_id]);
                            c += 1;
                        }
                        out.push(RexKind::Sum(RexTree { ids: ids2 }));
                        proof {
                            assert(remap_ids(ks, tree@) =~= ids2@);
                            assert(out.deep_view()[j as int] == KindView::Sum(ids2@));
                            assert(fit_rex(ks)[j as int] == remap_kind(ks, nkv[j as int]));
                            assert(kind_children(ks[p]).len() > 0);
                            assert(kind_children(fit_rex(ks)[j as int]) == ids2@);
                            assert forall|c: int| 0 <= c < ids2@.len() implies j < (
                            #[trigger] kind_children(fit_rex(ks)[j as int])[c]) < nkv.len() by {
                                assert(kind_children(fit_rex(ks)[j as int])[c] == ids2@[c]);
                            }
                        }
                    },
                    other => {
                        let c = other.clone();
                        out.push(c);
                        proof {
                            assert(interim_kind_ok(ks, nkv, flagsv, j as int));
                            assert(out.deep_view()[j as int] == nkv[j as int]);
                            assert(fit_rex(ks)[j as int] == remap_kind(ks, nkv[j as int]));
                            assert(!kind_is_internal(fit_rex(ks)[j as int]));
                        }
                    },
                }
            }
            j += 1;
        }
        let r = Rex { kinds: out };
        proof {
            assert(r@ =~= fit_rex(ks));
            assert forall|q: int|
                0 <= q < r@.len() && kind_is_internal(#[trigger] r@[q]) implies {
                let ids = kind_children(r@[q]);
                ids.len() > 0 && forall|c: int|
                    0 <= c < ids.len() ==> q < (#[trigger] ids[c]) < r@.len()
            } by {
                assert(r@[q] == fit_rex(ks)[q]);
            }
            assert forall|q: int| 0 <= q < r@.len() implies !((#[trigger] r@[q]) is Fat) by {
                assert(r@[q] == fit_rex(ks)[q]);
                assert(interim_kind_ok(ks, nkv, flagsv, q));
            }
            assert forall|q: int| 0 <= q < r@.len() implies match #[trigger] r@[q] {
                KindView::Thin(t) => tar_wf(t),
                KindView::Fat(parts) => far_wf(parts),
                _ => true,
            } by {
                assert(interim_kind_ok(ks, nkv, flagsv, q));
            }
        }
        r
    }
}

} // verus!
