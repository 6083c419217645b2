use vstd::prelude::*;
use vstd::string::StringExecFns;
use crate::grammar::Grammar;
use crate::grammar::GrammarView;
use crate::grammar::ProductionID;
use crate::grammar::SymbolID;

verus! {

/// A sentence under construction: a stack of symbol ids.
#[derive(Debug)]
pub struct Sentence {
    pub(crate) symbols: Vec<SymbolID>,
}

impl View for Sentence {
    type V = Seq<SymbolID>;

    closed spec fn view(&self) -> Seq<SymbolID> {
        self.symbols@
    }
}

/// The terminal names of `symbols`, read back to front, joined by single
/// spaces.
pub open spec fn render_rev(g: GrammarView, symbols: Seq<SymbolID>) -> Seq<char>
    decreases symbols.len(),
{
    if symbols.len() == 0 {
        Seq::empty()
    } else {
        let prev = render_rev(g, symbols.drop_first());
        if prev.len() == 0 {
            g.names[symbols[0] as int]
        } else {
            prev + seq![' '] + g.names[symbols[0] as int]
        }
    }
}

impl Sentence {
    pub fn new() -> (r: Sentence)
        ensures
            r@ == Seq::<SymbolID>::empty(),
    {
        let r = Sentence { symbols: Vec::new() };
        proof {
            assert(r@ =~= Seq::<SymbolID>::empty());
        }
        r
    }

    pub fn clear(&mut self)
        ensures
            final(self)@ == Seq::<SymbolID>::empty(),
    {
        self.symbols.clear();
        proof {
            assert(self@ =~= Seq::<SymbolID>::empty());
        }
    }

    pub fn push(&mut self, symbol: SymbolID)
        ensures
            final(self)@ == old(self)@.push(symbol),
    {
        self.symbols.push(symbol);
    }

    pub fn pop(&mut self) -> (r: Option<SymbolID>)
        ensures
            old(self)@.len() == 0 ==> r is None && final(self)@ == old(self)@,
            old(self)@.len() > 0 ==> r == Some(old(self)@.last()) && final(self)@ == old(
                self,
            )@.drop_last(),
    {
        self.symbols.pop()
    }

    pub fn len(&self) -> (r: usize)
        ensures
            r == self@.len(),
    {
        self.symbols.len()
    }

    /// Renders the sentence: the symbols are terminals of `grammar`, read in
    /// reverse order of the stack and joined by spaces.
    pub fn as_string(&self, grammar: &Grammar) -> (r: String)
        requires
            grammar.wf(),
            forall|k: int|
                0 <= k < self@.len() ==> (#[trigger] self@[k]) < grammar@.names.len()
                    && grammar@.terminal[self@[k] as int],
        ensures
            r@ == render_rev(grammar@, self@),
    {
        let mut result = String::new();
        let mut i: usize = self.symbols.len();
        while i > 0
            invariant
                0 <= i <= self@.len(),
                grammar.wf(),
                forall|k: int|
                    0 <= k < self@.len() ==> (#[trigger] self@[k]) < grammar@.names.len()
                        && grammar@.terminal[self@[k] as int],
                result@ == render_rev(grammar@, self@.skip(i as int)),
            decreases i,
        {
            i = i - 1;
            let id = self.symbols[i];
            let name = match grammar.get_terminal(id) {
                Some(n) => n,
                None => unreached(),
            };
            if result.as_str().is_empty() {
                result.append(name.as_str());
            } else {
                result.append(" ");
                result.append(name.as_str());
            }
            proof {
                reveal_strlit(" ");
                assert(" "@ =~= seq![' ']);
                let tail = self@.skip(i as int);
                assert(tail.drop_first() =~= self@.skip(i + 1));
                assert(tail[0] == self@[i as int]);
                assert(result@ =~= render_rev(grammar@, tail));
            }
        }
        proof {
            assert(self@.skip(0) =~= self@);
        }
        result
    }
}

/// How the generator plans to expand a nonterminal next.
#[derive(Debug)]
pub enum ProductionUsed {
    /// Not yet decided in this round.
    Ready,
    /// Some occurrence is still pending on the expansion stack.
    Unsure,
    /// Nothing new to explore: the shortest production will be used.
    Finished,
    /// The chosen production for the next expansion.
    ID(ProductionID),
}

impl Default for ProductionUsed {
    fn default() -> (r: Self)
        ensures
            r is Ready,
    {
        ProductionUsed::Ready
    }
}

/// View of the generator's whole state.
#[verifier::ext_equal]
pub struct GeneratorView {
    pub symbol_min: Seq<Option<usize>>,
    pub prod_min: Seq<Option<usize>>,
    pub best_prod: Seq<Option<ProductionID>>,
    pub axiom_id: Option<SymbolID>,
    pub min_through: Seq<Option<usize>>,
    pub best_parent: Seq<Option<ProductionID>>,
    pub which_prod: Seq<ProductionUsed>,
    pub on_stack: Seq<usize>,
    pub prod_marked: Seq<bool>,
    pub in_sentence: Seq<SymbolID>,
    pub out_sentence: Seq<SymbolID>,
    pub num_emitted: u64,
    pub exhausted: bool,
    pub grammar: Option<GrammarView>,
}

/// The exhaustive, shortest-first sentence generator over a grammar.
#[derive(Debug)]
pub struct Generator {
    pub(crate) symbol_min: Vec<Option<usize>>,
    pub(crate) prod_min: Vec<Option<usize>>,
    pub(crate) best_prod: Vec<Option<ProductionID>>,
    pub(crate) axiom_id: Option<SymbolID>,
    pub(crate) min_through: Vec<Option<usize>>,
    pub(crate) best_parent: Vec<Option<ProductionID>>,
    pub(crate) which_prod: Vec<ProductionUsed>,
    pub(crate) on_stack: Vec<usize>,
    pub(crate) prod_marked: Vec<bool>,
    pub(crate) in_sentence: Sentence,
    pub(crate) out_sentence: Sentence,
    pub(crate) num_emitted: u64,
    pub(crate) exhausted: bool,
    pub(crate) grammar: Option<Grammar>,
}

impl View for Generator {
    type V = GeneratorView;

    closed spec fn view(&self) -> GeneratorView {
        GeneratorView {
            symbol_min: self.symbol_min@,
            prod_min: self.prod_min@,
            best_prod: self.best_prod@,
            axiom_id: self.axiom_id,
            min_through: self.min_through@,
            best_parent: self.best_parent@,
            which_prod: self.which_prod@,
            on_stack: self.on_stack@,
            prod_marked: self.prod_marked@,
            in_sentence: self.in_sentence@,
            out_sentence: self.out_sentence@,
            num_emitted: self.num_emitted,
            exhausted: self.exhausted,
            grammar: match self.grammar {
                Some(g) => Some(g@),
                None => None,
            },
        }
    }
}

/// Integrity of the derivation tables against a grammar of `nsym` symbols
/// and `nprod` productions: the tables run in parallel with the symbol
/// table, and every stored production id is in range.
pub open spec fn tables_ok(v: GeneratorView, nsym: int, nprod: int) -> bool {
    &&& v.symbol_min.len() == nsym
    &&& v.best_prod.len() == nsym
    &&& v.min_through.len() == nsym
    &&& v.best_parent.len() == nsym
    &&& v.prod_min.len() == nprod
    &&& forall|k: int|
        0 <= k < nsym ==> ((#[trigger] v.best_prod[k]) is Some ==> v.best_prod[k]->0 < nprod)
    &&& forall|k: int|
        0 <= k < nsym ==> ((#[trigger] v.best_parent[k]) is Some ==> v.best_parent[k]->0 < nprod)
}

/// Integrity of the emission state.
pub open spec fn emission_ok(v: GeneratorView, g: GrammarView) -> bool {
    &&& v.which_prod.len() == g.names.len()
    &&& v.on_stack.len() == g.names.len()
    &&& v.prod_marked.len() == g.prods.len()
    &&& forall|k: int|
        0 <= k < g.names.len() ==> ((#[trigger] v.which_prod[k]) is ID ==> v.which_prod[k]->0
            < g.prods.len() && g.prods[v.which_prod[k]->0 as int].lhs as int == k)
}

impl Generator {
    /// Everything the emission loop relies on: a well-formed grammar is
    /// loaded, an axiom is chosen, and all tables are in range for it.
    pub open spec fn emitting(&self) -> bool {
        &&& self@.grammar is Some
        &&& self@.axiom_id is Some
        &&& ({
            let g = self@.grammar->0;
            let nsym = g.names.len() as int;
            let nprod = g.prods.len() as int;
            &&& g.terminal.len() == nsym
            &&& (forall|p: int|
                0 <= p < nprod ==> {
                    let pr = #[trigger] g.prods[p];
                    &&& pr.lhs < nsym
                    &&& !g.terminal[pr.lhs as int]
                    &&& forall|k: int| 0 <= k < pr.rhs.len() ==> (#[trigger] pr.rhs[k]) < nsym
                })
            &&& self@.axiom_id->0 < nsym
            &&& !g.terminal[self@.axiom_id->0 as int]
            &&& tables_ok(self@, nsym, nprod)
            &&& emission_ok(self@, g)
            &&& (forall|n: int|
                0 <= n < nsym ==> ((#[trigger] self@.best_prod[n]) is Some ==> self@.best_prod[n]->0
                    < nprod && g.prods[self@.best_prod[n]->0 as int].lhs as int == n))
            &&& (forall|k: int|
                0 <= k < self@.in_sentence.len() ==> (#[trigger] self@.in_sentence[k]) < nsym)
            &&& (forall|k: int|
                0 <= k < self@.out_sentence.len() ==> (#[trigger] self@.out_sentence[k]) < nsym
                    && g.terminal[self@.out_sentence[k] as int])
        })
    }

    pub fn new() -> (r: Generator)
        ensures
            r@.grammar is None,
            r@.axiom_id is None,
            r@.num_emitted == 0,
    {
        Generator {
            symbol_min: Vec::new(),
            prod_min: Vec::new(),
            best_prod: Vec::new(),
            axiom_id: None,
            min_through: Vec::new(),
            best_parent: Vec::new(),
            which_prod: Vec::new(),
            on_stack: Vec::new(),
            prod_marked: Vec::new(),
            in_sentence: Sentence::new(),
            out_sentence: Sentence::new(),
            num_emitted: 0,
            exhausted: false,
            grammar: None,
        }
    }

    /// Clears every table: axiom-independent, axiom-specific and emission.
    pub fn clear_all(&mut self)
        ensures
            final(self)@.symbol_min.len() == 0,
            final(self)@.prod_min.len() == 0,
            final(self)@.best_prod.len() == 0,
            final(self)@.axiom_id is None,
            final(self)@.min_through.len() == 0,
            final(self)@.best_parent.len() == 0,
            final(self)@.which_prod.len() == 0,
            final(self)@.on_stack.len() == 0,
            final(self)@.prod_marked.len() == 0,
            final(self)@.in_sentence.len() == 0,
            final(self)@.out_sentence.len() == 0,
            final(self)@.num_emitted == 0,
            final(self)@.exhausted == false,
            final(self)@.grammar is None,
    {
        self.symbol_min.clear();
        self.prod_min.clear();
        self.best_prod.clear();
        self.clear_axiom();
    }

    /// Clears the axiom choice and everything that depends on it.
    pub fn clear_axiom(&mut self)
        ensures
            final(self)@.symbol_min == old(self)@.symbol_min,
            final(self)@.prod_min == old(self)@.prod_min,
            final(self)@.best_prod == old(self)@.best_prod,
            final(self)@.axiom_id is None,
            final(self)@.min_through.len() == 0,
            final(self)@.best_parent.len() == 0,
            final(self)@.which_prod.len() == 0,
            final(self)@.on_stack.len() == 0,
            final(self)@.prod_marked.len() == 0,
            final(self)@.in_sentence.len() == 0,
            final(self)@.out_sentence.len() == 0,
            final(self)@.num_emitted == 0,
            final(self)@.exhausted == false,
            final(self)@.grammar is None,
    {
        self.axiom_id = None;
        self.min_through.clear();
        self.best_parent.clear();
        self.clear_emission();
    }

    /// Clears the emission state only.
    pub fn clear_emission(&mut self)
        ensures
            final(self)@.symbol_min == old(self)@.symbol_min,
            final(self)@.prod_min == old(self)@.prod_min,
            final(self)@.best_prod == old(self)@.best_prod,
            final(self)@.axiom_id == old(self)@.axiom_id,
            final(self)@.min_through == old(self)@.min_through,
            final(self)@.best_parent == old(self)@.best_parent,
            final(self)@.which_prod.len() == 0,
            final(self)@.on_stack.len() == 0,
            final(self)@.prod_marked.len() == 0,
            final(self)@.in_sentence.len() == 0,
            final(self)@.out_sentence.len() == 0,
            final(self)@.num_emitted == 0,
            final(self)@.exhausted == false,
            final(self)@.grammar is None,
    {
        self.which_prod.clear();
        self.on_stack.clear();
        self.prod_marked.clear();
        self.in_sentence.clear();
        self.out_sentence.clear();
        self.num_emitted = 0;
        self.exhausted = false;
        self.grammar = None;
    }

    /// Gathers axiom-independent derivation data: for every terminal a unit
    /// bound, then production and symbol bounds relaxed to a fixed point,
    /// recording each nonterminal's best production.
    pub fn with_grammar(self, grammar: &Grammar) -> (r: Generator)
        requires
            grammar.wf(),
        ensures
            r@.symbol_min.len() == grammar@.names.len(),
            r@.best_prod.len() == grammar@.names.len(),
            r@.prod_min.len() == grammar@.prods.len(),
            forall|k: int|
                0 <= k < grammar@.names.len() ==> ((#[trigger] r@.best_prod[k]) is Some
                    ==> r@.best_prod[k]->0 < grammar@.prods.len()),
            r@.min_through.len() == 0,
            r@.best_parent.len() == 0,
            r@.axiom_id is None,
            r@.grammar is None,
            r@.which_prod.len() == 0,
            r@.on_stack.len() == 0,
            r@.prod_marked.len() == 0,
            r@.in_sentence.len() == 0,
            r@.out_sentence.len() == 0,
            r@.num_emitted == 0,
            forall|t: int|
                0 <= t < grammar@.names.len() && grammar@.terminal[t] ==> (
                #[trigger] r@.symbol_min[t]) == Some(1usize),
            forall|t: int|
                0 <= t < grammar@.names.len() && grammar@.terminal[t] ==> (
                #[trigger] r@.best_prod[t]) is None,
            forall|n: int|
                0 <= n < grammar@.names.len() ==> ((#[trigger] r@.best_prod[n]) is Some
                    ==> r@.best_prod[n]->0 < grammar@.prods.len()
                    && grammar@.prods[r@.best_prod[n]->0 as int].lhs as int == n),
            relaxed(grammar@, r@.symbol_min, r@.prod_min),
            forall|p: int|
                0 <= p < grammar@.prods.len() ==> ((#[trigger] r@.prod_min[p]) is Some
                    ==> rhs_sum(grammar@, r@.symbol_min, p, grammar@.prods[p].rhs.len() as int)
                    == Some(r@.prod_min[p]->0 as int)),
            forall|n: int|
                0 <= n < grammar@.names.len() && !grammar@.terminal[n] ==> {
                    &&& ((#[trigger] r@.symbol_min[n]) is Some <==> r@.best_prod[n] is Some)
                    &&& (r@.best_prod[n] is Some ==> grammar@.prods[r@.best_prod[n]->0 as int].lhs
                        as int == n && r@.prod_min[r@.best_prod[n]->0 as int] == Some(
                        r@.symbol_min[n]->0,
                    ))
                },
    {
        let mut gen = self;
        gen.clear_all();
        let nsym = grammar.num_symbols();
        let nprod = grammar.len();
        let mut i: usize = 0;
        while i < nsym
            invariant
                0 <= i <= nsym,
                grammar.wf(),
                nsym == grammar@.names.len(),
                gen@.symbol_min.len() == i,
                gen@.best_prod.len() == i,
                gen@.prod_min.len() == 0,
                forall|k: int| 0 <= k < i ==> (#[trigger] gen@.best_prod[k]) is None,
                forall|t: int|
                    0 <= t < i && grammar@.terminal[t] ==> (#[trigger] gen@.symbol_min[t]) == Some(
                        1usize,
                    ),
                forall|t: int|
                    0 <= t < i && grammar@.terminal[t] ==> (#[trigger] gen@.best_prod[t]) is None,
                forall|n: int|
                    0 <= n < i && !grammar@.terminal[n] ==> (#[trigger] gen@.symbol_min[n])
                        is None,
                gen@.min_through.len() == 0,
                gen@.best_parent.len() == 0,
                gen@.axiom_id is None,
                gen@.grammar is None,
                gen@.which_prod.len() == 0,
                gen@.on_stack.len() == 0,
                gen@.prod_marked.len() == 0,
                gen@.in_sentence.len() == 0,
                gen@.out_sentence.len() == 0,
                gen@.num_emitted == 0,
            decreases nsym - i,
        {
            if grammar.is_terminal(i) {
                gen.symbol_min.push(Some(1));
            } else {
                gen.symbol_min.push(None);
            }
            gen.best_prod.push(None);
            i += 1;
        }
        let mut q: usize = 0;
        while q < nprod
            invariant
                0 <= q <= nprod,
                grammar.wf(),
                nsym == grammar@.names.len(),
                nprod == grammar@.prods.len(),
                gen@.symbol_min.len() == nsym,
                gen@.best_prod.len() == nsym,
                forall|k: int| 0 <= k < nsym ==> (#[trigger] gen@.best_prod[k]) is None,
                forall|t: int|
                    0 <= t < nsym && grammar@.terminal[t] ==> (#[trigger] gen@.symbol_min[t])
                        == Some(1usize),
                forall|t: int|
                    0 <= t < nsym && grammar@.terminal[t] ==> (#[trigger] gen@.best_prod[t])
                        is None,
                forall|n: int|
                    0 <= n < nsym && !grammar@.terminal[n] ==> (#[trigger] gen@.symbol_min[n])
                        is None,
                gen@.prod_min.len() == q,
                forall|k: int| 0 <= k < q ==> (#[trigger] gen@.prod_min[k]) is None,
                gen@.min_through.len() == 0,
                gen@.best_parent.len() == 0,
                gen@.axiom_id is None,
                gen@.grammar is None,
                gen@.which_prod.len() == 0,
                gen@.on_stack.len() == 0,
                gen@.prod_marked.len() == 0,
                gen@.in_sentence.len() == 0,
                gen@.out_sentence.len() == 0,
                gen@.num_emitted == 0,
            decreases nprod - q,
        {
            gen.prod_min.push(None);
            q += 1;
        }
        // Relax production and symbol bounds until nothing improves.  The
        // total potential of the tables shrinks with every improvement,
        // which bounds the iteration.
        let mut no_change = false;
        while !no_change
            invariant
                grammar.wf(),
                nsym == grammar@.names.len(),
                nprod == grammar@.prods.len(),
                gen@.symbol_min.len() == nsym,
                gen@.best_prod.len() == nsym,
                gen@.prod_min.len() == nprod,
                forall|k: int|
                    0 <= k < nsym ==> ((#[trigger] gen@.best_prod[k]) is Some ==> gen@.best_prod[k]->0
                        < nprod),
                forall|t: int|
                    0 <= t < nsym && grammar@.terminal[t] ==> (#[trigger] gen@.symbol_min[t])
                        == Some(1usize),
                forall|t: int|
                    0 <= t < nsym && grammar@.terminal[t] ==> (#[trigger] gen@.best_prod[t])
                        is None,
                forall|p: int|
                    0 <= p < nprod ==> ((#[trigger] gen@.prod_min[p]) is Some
                        ==> gen@.symbol_min[grammar@.prods[p].lhs as int] is Some
                        && gen@.symbol_min[grammar@.prods[p].lhs as int]->0 <= gen@.prod_min[p]->0),
                forall|n: int|
                    0 <= n < nsym && !grammar@.terminal[n] ==> {
                        &&& ((#[trigger] gen@.symbol_min[n]) is Some <==> gen@.best_prod[n]
                            is Some)
                        &&& (gen@.best_prod[n] is Some ==> grammar@.prods[gen@.best_prod[n]->0 as int].lhs
                            as int == n && gen@.prod_min[gen@.best_prod[n]->0 as int] == Some(
                            gen@.symbol_min[n]->0,
                        ))
                    },
                forall|p2: int|
                    0 <= p2 < nprod ==> ((#[trigger] gen@.prod_min[p2]) is Some ==> rhs_sum(
                        grammar@,
                        gen@.symbol_min,
                        p2,
                        grammar@.prods[p2].rhs.len() as int,
                    ) is Some && rhs_sum(
                        grammar@,
                        gen@.symbol_min,
                        p2,
                        grammar@.prods[p2].rhs.len() as int,
                    )->0 <= gen@.prod_min[p2]->0),
                gen@.min_through.len() == 0,
                gen@.best_parent.len() == 0,
                gen@.axiom_id is None,
                gen@.grammar is None,
                gen@.which_prod.len() == 0,
                gen@.on_stack.len() == 0,
                gen@.prod_marked.len() == 0,
                gen@.in_sentence.len() == 0,
                gen@.out_sentence.len() == 0,
                gen@.num_emitted == 0,
                no_change ==> forall|k: int|
                    0 <= k < nprod ==> {
                        let s = rhs_sum(
                            grammar@,
                            gen@.symbol_min,
                            k,
                            grammar@.prods[k].rhs.len() as int,
                        );
                        s is Some && s->0 <= usize::MAX ==> (#[trigger] gen@.prod_min[k]) is Some
                            && gen@.prod_min[k]->0 <= s->0
                    },
            decreases msum(gen@.symbol_min, nsym as int) + msum(gen@.prod_min, nprod as int) + (
            if no_change {
                0int
            } else {
                1int
            }),
        {
            proof {
                lemma_msum_nonneg(gen@.symbol_min, nsym as int);
                lemma_msum_nonneg(gen@.prod_min, nprod as int);
            }
            let ghost start_sym = gen@.symbol_min;
            let ghost start_prod = gen@.prod_min;
            no_change = true;
            let mut p: usize = 0;
            while p < nprod
                invariant
                    0 <= p <= nprod,
                    grammar.wf(),
                    nsym == grammar@.names.len(),
                    nprod == grammar@.prods.len(),
                    gen@.symbol_min.len() == nsym,
                    gen@.best_prod.len() == nsym,
                    gen@.prod_min.len() == nprod,
                    forall|k: int|
                        0 <= k < nsym ==> ((#[trigger] gen@.best_prod[k]) is Some ==> gen@.best_prod[k]->0
                            < nprod),
                    forall|t: int|
                        0 <= t < nsym && grammar@.terminal[t] ==> (#[trigger] gen@.symbol_min[t])
                            == Some(1usize),
                    forall|t: int|
                        0 <= t < nsym && grammar@.terminal[t] ==> (#[trigger] gen@.best_prod[t])
                            is None,
                    gen@.min_through.len() == 0,
                    gen@.best_parent.len() == 0,
                    gen@.axiom_id is None,
                    gen@.grammar is None,
                    gen@.which_prod.len() == 0,
                    gen@.on_stack.len() == 0,
                    gen@.prod_marked.len() == 0,
                    gen@.in_sentence.len() == 0,
                    gen@.out_sentence.len() == 0,
                    gen@.num_emitted == 0,
                    msum(gen@.symbol_min, nsym as int) + msum(gen@.prod_min, nprod as int) <= msum(
                        start_sym,
                        nsym as int,
                    ) + msum(start_prod, nprod as int),
                    !no_change ==> msum(gen@.symbol_min, nsym as int) + msum(
                        gen@.prod_min,
                        nprod as int,
                    ) < msum(start_sym, nsym as int) + msum(start_prod, nprod as int),
                    forall|k: int|
                        0 <= k < nprod ==> ((#[trigger] gen@.prod_min[k]) is Some
                            ==> gen@.symbol_min[grammar@.prods[k].lhs as int] is Some
                            && gen@.symbol_min[grammar@.prods[k].lhs as int]->0
                            <= gen@.prod_min[k]->0),
                    forall|n: int|
                        0 <= n < nsym && !grammar@.terminal[n] ==> {
                            &&& ((#[trigger] gen@.symbol_min[n]) is Some <==> gen@.best_prod[n]
                                is Some)
                            &&& (gen@.best_prod[n] is Some ==> grammar@.prods[gen@.best_prod[n]->0 as int].lhs
                                as int == n && gen@.prod_min[gen@.best_prod[n]->0 as int] == Some(
                                gen@.symbol_min[n]->0,
                            ))
                        },
                    forall|p2: int|
                    0 <= p2 < nprod ==> ((#[trigger] gen@.prod_min[p2]) is Some ==> rhs_sum(
                        grammar@,
                        gen@.symbol_min,
                        p2,
                        grammar@.prods[p2].rhs.len() as int,
                    ) is Some && rhs_sum(
                        grammar@,
                        gen@.symbol_min,
                        p2,
                        grammar@.prods[p2].rhs.len() as int,
                    )->0 <= gen@.prod_min[p2]->0),
                no_change ==> gen@.symbol_min == start_sym,
                    no_change ==> forall|k: int|
                        0 <= k < p ==> {
                            let s = rhs_sum(
                                grammar@,
                                gen@.symbol_min,
                                k,
                                grammar@.prods[k].rhs.len() as int,
                            );
                            s is Some && s->0 <= usize::MAX ==> (#[trigger] gen@.prod_min[k])
                                is Some && gen@.prod_min[k]->0 <= s->0
                        },
                decreases nprod - p,
            {
                let prod = match grammar.get(p) {
                    Some(pr) => pr,
                    None => unreached(),
                };
                let rhs = prod.rhs();
                let mut sum: usize = 1;
                let mut all_known = true;
                let mut w: usize = 0;
                while w < rhs.len()
                    invariant
                        0 <= w <= rhs@.len(),
                        rhs@ == grammar@.prods[p as int].rhs,
                        0 <= p < nprod,
                        nprod == grammar@.prods.len(),
                        grammar.wf(),
                        nsym == grammar@.names.len(),
                        gen@.symbol_min.len() == nsym,
                        all_known ==> rhs_sum(grammar@, gen@.symbol_min, p as int, w as int)
                            == Some(sum as int),
                        !all_known ==> (rhs_sum(grammar@, gen@.symbol_min, p as int, w as int)
                            is None || rhs_sum(grammar@, gen@.symbol_min, p as int, w as int)->0
                            > usize::MAX),
                    decreases rhs@.len() - w,
                {
                    let e = rhs[w];
                    proof {
                        assert(grammar@.prods[p as int].rhs[w as int] == e);
                        assert(e < nsym);
                    }
                    match gen.symbol_min[e] {
                        Some(bound) => {
                            match sum.checked_add(bound) {
                                Some(s) => {
                                    sum = s;
                                },
                                None => {
                                    all_known = false;
                                },
                            }
                        },
                        None => {
                            all_known = false;
                        },
                    }
                    w += 1;
                }
                proof {
                    if !all_known {
                        lemma_rhs_sum_mono(
                            grammar@,
                            gen@.symbol_min,
                            p as int,
                            rhs@.len() as int,
                            rhs@.len() as int,
                        );
                    }
                }
                if all_known {
                    let improves_prod = match gen.prod_min[p] {
                        Some(v) => sum < v,
                        None => true,
                    };
                    if improves_prod {
                        proof {
                            lemma_msum_update(gen@.prod_min, p as int, Some(sum), nprod as int);
                        }
                        gen.prod_min[p] = Some(sum);
                        let lhs = prod.lhs();
                        proof {
                            assert(grammar@.prods[p as int].lhs < nsym);
                            assert(!grammar@.terminal[grammar@.prods[p as int].lhs as int]);
                        }
                        let improves_sym = match gen.symbol_min[lhs] {
                            Some(v) => sum < v,
                            None => true,
                        };
                        if improves_sym {
                            proof {
                                lemma_msum_update(
                                    gen@.symbol_min,
                                    lhs as int,
                                    Some(sum),
                                    nsym as int,
                                );
                            }
                            let ghost sm_old = gen@.symbol_min;
                            gen.symbol_min[lhs] = Some(sum);
                            gen.best_prod[lhs] = Some(p);
                            no_change = false;
                            proof {
                                assert forall|p2: int|
                                    0 <= p2 < nprod && (#[trigger] gen@.prod_min[p2])
                                        is Some implies (rhs_sum(
                                    grammar@,
                                    gen@.symbol_min,
                                    p2,
                                    grammar@.prods[p2].rhs.len() as int,
                                ) is Some && rhs_sum(
                                    grammar@,
                                    gen@.symbol_min,
                                    p2,
                                    grammar@.prods[p2].rhs.len() as int,
                                )->0 <= gen@.prod_min[p2]->0) by {
                                    lemma_rhs_sum_lower(
                                        grammar@,
                                        sm_old,
                                        gen@.symbol_min,
                                        p2,
                                        grammar@.prods[p2].rhs.len() as int,
                                    );
                                }
                            }
                        }
                    }
                }
                p += 1;
            }
            proof {
                lemma_msum_nonneg(gen@.symbol_min, nsym as int);
                lemma_msum_nonneg(gen@.prod_min, nprod as int);
            }
        }
        proof {
            assert(relaxed(grammar@, gen@.symbol_min, gen@.prod_min));
            assert forall|n: int|
                0 <= n < nsym && (#[trigger] gen@.best_prod[n]) is Some implies gen@.best_prod[n]->0
                < nprod && grammar@.prods[gen@.best_prod[n]->0 as int].lhs as int == n by {
                if grammar@.terminal[n] {
                    assert((gen@.best_prod[n]) is None);
                } else {
                    assert((gen@.symbol_min[n]) is Some <==> gen@.best_prod[n] is Some);
                }
            }
        }
        gen
    }
}

impl Generator {
    /// Gathers axiom-specific derivation data: shortest derivation lengths
    /// from the axiom through every nonterminal, relaxed to a fixed point,
    /// recording each nonterminal's best parent production.  Fails exactly
    /// when `axiom_name` names no nonterminal of the grammar.
    pub fn set_axiom(&mut self, grammar: &Grammar, axiom_name: &str) -> (r: Result<(), String>)
        requires
            grammar.wf(),
            old(self)@.symbol_min.len() == grammar@.names.len(),
            old(self)@.prod_min.len() == grammar@.prods.len(),
            old(self)@.best_prod.len() == grammar@.names.len(),
            forall|k: int|
                0 <= k < grammar@.names.len() ==> ((#[trigger] old(self)@.best_prod[k]) is Some
                    ==> old(self)@.best_prod[k]->0 < grammar@.prods.len()),
        ensures
            final(self)@.symbol_min == old(self)@.symbol_min,
            final(self)@.prod_min == old(self)@.prod_min,
            final(self)@.best_prod == old(self)@.best_prod,
            final(self)@.grammar is None,
            r is Ok <==> (exists|k: int|
                0 <= k < grammar@.names.len() && (#[trigger] grammar@.names[k]) == axiom_name@
                    && !grammar@.terminal[k]),
            match r {
                Ok(_) => {
                    &&& final(self)@.axiom_id is Some
                    &&& final(self)@.axiom_id->0 < grammar@.names.len()
                    &&& !grammar@.terminal[final(self)@.axiom_id->0 as int]
                    &&& grammar@.names[final(self)@.axiom_id->0 as int] == axiom_name@
                    &&& tables_ok(final(self)@, grammar@.names.len() as int, grammar@.prods.len() as int)
                    &&& through_relaxed(
                        grammar@,
                        final(self)@.symbol_min,
                        final(self)@.prod_min,
                        final(self)@.min_through,
                    )
                    &&& forall|n: int|
                        0 <= n < grammar@.names.len() && !grammar@.terminal[n]
                            ==> #[trigger] parent_linked(grammar@, final(self)@, n)
                    &&& forall|n: int|
                        0 <= n < grammar@.names.len() && !grammar@.terminal[n]
                            ==> #[trigger] parent_attained(grammar@, final(self)@, n)
                    &&& axiom_seed_bounded(old(self)@, final(self)@)
                },
                Err(msg) => {
                    &&& final(self)@.axiom_id is None
                    &&& msg@ == "No such nonterminal: <"@ + axiom_name@ + ">"@
                    &&& final(self)@.min_through.len() == 0
                    &&& final(self)@.best_parent.len() == 0
                    &&& final(self)@.which_prod.len() == 0
                    &&& final(self)@.on_stack.len() == 0
                    &&& final(self)@.prod_marked.len() == 0
                    &&& final(self)@.in_sentence.len() == 0
                    &&& final(self)@.out_sentence.len() == 0
                    &&& final(self)@.num_emitted == 0
                },
            },
    {
        let nsym = grammar.num_symbols();
        let nprod = grammar.len();
        self.axiom_id = None;
        self.min_through.clear();
        self.best_parent.clear();
        self.clear_emission();
        let axiom_id = match grammar.id_of_nonterminal(axiom_name) {
            Some(id) => id,
            None => {
                let mut msg = String::new();
                msg.append("No such nonterminal: <");
                msg.append(axiom_name);
                msg.append(">");
                proof {
                    reveal_strlit("No such nonterminal: <");
                    reveal_strlit(">");
                    assert(msg@ =~= "No such nonterminal: <"@ + axiom_name@ + ">"@);
                }
                return Err(msg);
            },
        };
        proof {
            assert(grammar@.names[axiom_id as int] == axiom_name@ && !grammar@.terminal[axiom_id as int]);
        }
        self.axiom_id = Some(axiom_id);
        let mut i: usize = 0;
        while i < nsym
            invariant
                0 <= i <= nsym,
                nsym == grammar@.names.len(),
                self@.min_through.len() == i,
                self@.best_parent.len() == i,
                forall|k: int| 0 <= k < i ==> (#[trigger] self@.best_parent[k]) is None,
                forall|k: int| 0 <= k < i ==> (#[trigger] self@.min_through[k]) is None,
                self@.symbol_min == old(self)@.symbol_min,
                self@.prod_min == old(self)@.prod_min,
                self@.best_prod == old(self)@.best_prod,
                self@.axiom_id == Some(axiom_id),
                axiom_id < nsym,
                self@.grammar is None,
                self@.which_prod.len() == 0,
                self@.on_stack.len() == 0,
                self@.prod_marked.len() == 0,
            decreases nsym - i,
        {
            self.min_through.push(None);
            self.best_parent.push(None);
            i += 1;
        }
        let seed = self.symbol_min[axiom_id];
        self.min_through[axiom_id] = seed;
        // Relax: a production whose head has a known distance proposes a
        // distance to every nonterminal on its right-hand side.
        let mut no_change = false;
        while !no_change
            invariant
                grammar.wf(),
                nsym == grammar@.names.len(),
                nprod == grammar@.prods.len(),
                self@.min_through.len() == nsym,
                self@.best_parent.len() == nsym,
                forall|k: int|
                    0 <= k < nsym ==> ((#[trigger] self@.best_parent[k]) is Some
                        ==> self@.best_parent[k]->0 < nprod),
                forall|n: int|
                    0 <= n < nsym && !grammar@.terminal[n] ==> #[trigger] parent_linked(
                        grammar@,
                        self@,
                        n,
                    ),
                forall|n: int|
                    0 <= n < nsym && !grammar@.terminal[n] ==> #[trigger] parent_attained(
                        grammar@,
                        self@,
                        n,
                    ),
                self@.symbol_min[axiom_id as int] is Some ==> (self@.min_through[axiom_id as int]
                    is Some && self@.min_through[axiom_id as int]->0
                    <= self@.symbol_min[axiom_id as int]->0),
                self@.best_parent[axiom_id as int] is None ==> self@.min_through[axiom_id as int]
                    == self@.symbol_min[axiom_id as int],
                self@.symbol_min == old(self)@.symbol_min,
                self@.prod_min == old(self)@.prod_min,
                self@.best_prod == old(self)@.best_prod,
                self@.symbol_min.len() == nsym,
                self@.prod_min.len() == nprod,
                self@.axiom_id == Some(axiom_id),
                axiom_id < nsym,
                self@.grammar is None,
                self@.which_prod.len() == 0,
                self@.on_stack.len() == 0,
                self@.prod_marked.len() == 0,
                no_change ==> forall|k: int|
                    0 <= k < nprod ==> ((#[trigger] self@.prod_min[k]) is Some
                        && self@.min_through[grammar@.prods[k].lhs as int] is Some
                        && self@.symbol_min[grammar@.prods[k].lhs as int] is Some
                        && self@.min_through[grammar@.prods[k].lhs as int]->0 + self@.prod_min[k]->0
                        <= usize::MAX && self@.symbol_min[grammar@.prods[k].lhs as int]->0
                        <= self@.min_through[grammar@.prods[k].lhs as int]->0 + self@.prod_min[k]->0
                        ==> (forall|w: int|
                        0 <= w < grammar@.prods[k].rhs.len() && !grammar@.terminal[grammar@.prods[k].rhs[w] as int]
                            ==> {
                            let proposal = self@.min_through[grammar@.prods[k].lhs as int]->0
                                + self@.prod_min[k]->0
                                - self@.symbol_min[grammar@.prods[k].lhs as int]->0;
                            (#[trigger] self@.min_through[grammar@.prods[k].rhs[w] as int]) is Some
                                && self@.min_through[grammar@.prods[k].rhs[w] as int]->0 <= proposal
                        })),
            decreases msum(self@.min_through, nsym as int) + (if no_change {
                0int
            } else {
                1int
            }),
        {
            proof {
                lemma_msum_nonneg(self@.min_through, nsym as int);
            }
            let ghost start_mt = self@.min_through;
            no_change = true;
            let mut p: usize = 0;
            while p < nprod
                invariant
                    0 <= p <= nprod,
                    grammar.wf(),
                    nsym == grammar@.names.len(),
                    nprod == grammar@.prods.len(),
                    self@.min_through.len() == nsym,
                    self@.best_parent.len() == nsym,
                    forall|k: int|
                        0 <= k < nsym ==> ((#[trigger] self@.best_parent[k]) is Some
                            ==> self@.best_parent[k]->0 < nprod),
                    forall|n: int|
                    0 <= n < nsym && !grammar@.terminal[n] ==> #[trigger] parent_linked(
                        grammar@,
                        self@,
                        n,
                    ),
                forall|n: int|
                    0 <= n < nsym && !grammar@.terminal[n] ==> #[trigger] parent_attained(
                        grammar@,
                        self@,
                        n,
                    ),
                self@.symbol_min[axiom_id as int] is Some ==> (self@.min_through[axiom_id as int]
                    is Some && self@.min_through[axiom_id as int]->0
                    <= self@.symbol_min[axiom_id as int]->0),
                self@.best_parent[axiom_id as int] is None ==> self@.min_through[axiom_id as int]
                    == self@.symbol_min[axiom_id as int],
                self@.symbol_min == old(self)@.symbol_min,
                    self@.prod_min == old(self)@.prod_min,
                    self@.best_prod == old(self)@.best_prod,
                    self@.symbol_min.len() == nsym,
                    self@.prod_min.len() == nprod,
                    self@.axiom_id == Some(axiom_id),
                    axiom_id < nsym,
                    self@.grammar is None,
                    self@.which_prod.len() == 0,
                    self@.on_stack.len() == 0,
                    self@.prod_marked.len() == 0,
                    msum(self@.min_through, nsym as int) <= msum(start_mt, nsym as int),
                    !no_change ==> msum(self@.min_through, nsym as int) < msum(
                        start_mt,
                        nsym as int,
                    ),
                    no_change ==> self@.min_through == start_mt,
                    no_change ==> forall|k: int|
                        0 <= k < p ==> ((#[trigger] self@.prod_min[k]) is Some
                            && self@.min_through[grammar@.prods[k].lhs as int] is Some
                            && self@.symbol_min[grammar@.prods[k].lhs as int] is Some
                            && self@.min_through[grammar@.prods[k].lhs as int]->0
                            + self@.prod_min[k]->0 <= usize::MAX
                            && self@.symbol_min[grammar@.prods[k].lhs as int]->0
                            <= self@.min_through[grammar@.prods[k].lhs as int]->0
                            + self@.prod_min[k]->0 ==> (forall|w: int|
                            0 <= w < grammar@.prods[k].rhs.len()
                                && !grammar@.terminal[grammar@.prods[k].rhs[w] as int] ==> {
                                let proposal = self@.min_through[grammar@.prods[k].lhs as int]->0
                                    + self@.prod_min[k]->0
                                    - self@.symbol_min[grammar@.prods[k].lhs as int]->0;
                                (#[trigger] self@.min_through[grammar@.prods[k].rhs[w] as int])
                                    is Some
                                    && self@.min_through[grammar@.prods[k].rhs[w] as int]->0
                                    <= proposal
                            })),
                decreases nprod - p,
            {
                let prod = match grammar.get(p) {
                    Some(pr) => pr,
                    None => unreached(),
                };
                let lhs = prod.lhs();
                proof {
                    assert(grammar@.prods[p as int].lhs < nsym);
                }
                let rlen_opt = self.prod_min[p];
                let dlen_opt = self.min_through[lhs];
                let slen_opt = self.symbol_min[lhs];
                match (rlen_opt, dlen_opt, slen_opt) {
                    (Some(rlen), Some(dlen), Some(slen)) => {
                        match dlen.checked_add(rlen) {
                            Some(dr) => {
                                if slen <= dr {
                                    let sum = dr - slen;
                                    let rhs = prod.rhs();
                                    let mut w: usize = 0;
                                    while w < rhs.len()
                                        invariant
                                            0 <= w <= rhs@.len(),
                                            rhs@ == grammar@.prods[p as int].rhs,
                                            0 <= p < nprod,
                                            grammar.wf(),
                                            nsym == grammar@.names.len(),
                                            nprod == grammar@.prods.len(),
                                            sum as int == dlen + rlen - slen,
                                            self@.prod_min[p as int] == Some(rlen),
                                            self@.symbol_min[grammar@.prods[p as int].lhs as int]
                                                == Some(slen),
                                            lhs as int == grammar@.prods[p as int].lhs as int,
                                            self@.min_through[lhs as int] is Some,
                                            self@.min_through[lhs as int]->0 <= dlen,
                                            axiom_id < nsym,
                                            no_change ==> self@.min_through == start_mt,
                                            no_change ==> forall|k: int|
                                                0 <= k < p ==> ((#[trigger] self@.prod_min[k])
                                                    is Some
                                                    && self@.min_through[grammar@.prods[k].lhs as int]
                                                    is Some
                                                    && self@.symbol_min[grammar@.prods[k].lhs as int]
                                                    is Some
                                                    && self@.min_through[grammar@.prods[k].lhs as int]->0
                                                    + self@.prod_min[k]->0 <= usize::MAX
                                                    && self@.symbol_min[grammar@.prods[k].lhs as int]->0
                                                    <= self@.min_through[grammar@.prods[k].lhs as int]->0
                                                    + self@.prod_min[k]->0 ==> (forall|w2: int|
                                                    0 <= w2 < grammar@.prods[k].rhs.len()
                                                        && !grammar@.terminal[grammar@.prods[k].rhs[w2] as int]
                                                        ==> {
                                                        let proposal = self@.min_through[grammar@.prods[k].lhs as int]->0
                                                            + self@.prod_min[k]->0
                                                            - self@.symbol_min[grammar@.prods[k].lhs as int]->0;
                                                        (
                                                        #[trigger] self@.min_through[grammar@.prods[k].rhs[w2] as int])
                                                            is Some
                                                            && self@.min_through[grammar@.prods[k].rhs[w2] as int]->0
                                                            <= proposal
                                                    })),
                                            no_change ==> self@.min_through[grammar@.prods[p as int].lhs as int]
                                                == Some(dlen),
                                            no_change ==> forall|q: int|
                                                0 <= q < w && !grammar@.terminal[grammar@.prods[p as int].rhs[q] as int]
                                                    ==> (
                                                #[trigger] self@.min_through[grammar@.prods[p as int].rhs[q] as int])
                                                    is Some
                                                    && self@.min_through[grammar@.prods[p as int].rhs[q] as int]->0
                                                    <= sum,
                                            self@.min_through.len() == nsym,
                                            self@.best_parent.len() == nsym,
                                            forall|k: int|
                                                0 <= k < nsym ==> ((
                                                #[trigger] self@.best_parent[k]) is Some
                                                    ==> self@.best_parent[k]->0 < nprod),
                                            forall|n: int|
                                                0 <= n < nsym && !grammar@.terminal[n]
                                                    ==> #[trigger] parent_linked(
                                                    grammar@,
                                                    self@,
                                                    n,
                                                ),
                                            forall|n: int|
                                                0 <= n < nsym && !grammar@.terminal[n]
                                                    ==> #[trigger] parent_attained(
                                                    grammar@,
                                                    self@,
                                                    n,
                                                ),
                                            self@.symbol_min[axiom_id as int] is Some ==> (self@.min_through[axiom_id as int]
                                                is Some && self@.min_through[axiom_id as int]->0
                                                <= self@.symbol_min[axiom_id as int]->0),
                                            self@.best_parent[axiom_id as int] is None ==> self@.min_through[axiom_id as int]
                                                == self@.symbol_min[axiom_id as int],
                                            self@.symbol_min == old(self)@.symbol_min,
                                            self@.prod_min == old(self)@.prod_min,
                                            self@.best_prod == old(self)@.best_prod,
                                            self@.symbol_min.len() == nsym,
                                            self@.prod_min.len() == nprod,
                                            self@.axiom_id == Some(axiom_id),
                                            self@.grammar is None,
                                            self@.which_prod.len() == 0,
                                            self@.on_stack.len() == 0,
                                            self@.prod_marked.len() == 0,
                                            msum(self@.min_through, nsym as int) <= msum(
                                                start_mt,
                                                nsym as int,
                                            ),
                                            !no_change ==> msum(self@.min_through, nsym as int)
                                                < msum(start_mt, nsym as int),
                                        decreases rhs@.len() - w,
                                    {
                                        let e = rhs[w];
                                        proof {
                                            assert(grammar@.prods[p as int].rhs[w as int] == e);
                                            assert(e < nsym);
                                        }
                                        if !grammar.is_terminal(e) {
                                            let improves = match self.min_through[e] {
                                                Some(v) => sum < v,
                                                None => true,
                                            };
                                            if improves {
                                                proof {
                                                    lemma_msum_update(
                                                        self@.min_through,
                                                        e as int,
                                                        Some(sum),
                                                        nsym as int,
                                                    );
                                                }
                                                let ghost v0 = self@;
                                                self.min_through[e] = Some(sum);
                                                self.best_parent[e] = Some(p);
                                                no_change = false;
                                                proof {
                                                    assert(self@.symbol_min[axiom_id as int]
                                                        is Some ==> (self@.min_through[axiom_id as int]
                                                        is Some && self@.min_through[axiom_id as int]->0
                                                        <= self@.symbol_min[axiom_id as int]->0))
                                                        by {
                                                        if self@.symbol_min[axiom_id as int]
                                                            is Some {
                                                            assert(self@.min_through
                                                                =~= v0.min_through.update(
                                                                e as int,
                                                                Some(sum),
                                                            ));
                                                            if e as int == axiom_id as int {
                                                                assert(v0.min_through[axiom_id as int]
                                                                    is Some);
                                                                assert(self@.min_through[axiom_id as int]
                                                                    == Some(sum));
                                                            } else {
                                                                assert(self@.min_through[axiom_id as int]
                                                                    == v0.min_through[axiom_id as int]);
                                                            }
                                                        }
                                                    }
                                                    assert forall|n: int|
                                                        0 <= n < nsym && !grammar@.terminal[n]
                                                            implies #[trigger] parent_attained(
                                                        grammar@,
                                                        self@,
                                                        n,
                                                    ) by {
                                                        if self@.best_parent[n] is Some {
                                                            let bp = self@.best_parent[n]->0 as int;
                                                            let l = grammar@.prods[bp].lhs as int;
                                                            if n == e as int {
                                                                assert(bp == p as int);
                                                                assert(l == lhs as int);
                                                                assert(self@.min_through[n]
                                                                    == Some(sum));
                                                                if l == e as int {
                                                                    assert(v0.min_through[l]
                                                                        is Some);
                                                                    assert((sum as int)
                                                                        < v0.min_through[l]->0);
                                                                    assert(v0.min_through[l]->0
                                                                        <= dlen);
                                                                } else {
                                                                    assert(self@.min_through[l]
                                                                        == v0.min_through[l]);
                                                                    assert(v0.min_through[l]
                                                                        is Some);
                                                                    assert(v0.min_through[l]->0
                                                                        <= dlen);
                                                                }
                                                            } else {
                                                                assert(parent_attained(
                                                                    grammar@,
                                                                    v0,
                                                                    n,
                                                                ));
                                                                assert(self@.best_parent[n]
                                                                    == v0.best_parent[n]);
                                                                assert(self@.min_through[n]
                                                                    == v0.min_through[n]);
                                                                if l == e as int {
                                                                    assert(v0.min_through[l]
                                                                        is Some);
                                                                    assert(self@.min_through[l]
                                                                        == Some(sum));
                                                                    assert((sum as int)
                                                                        <= v0.min_through[l]->0);
                                                                } else {
                                                                    assert(self@.min_through[l]
                                                                        == v0.min_through[l]);
                                                                }
                                                            }
                                                        }
                                                    }
                                                    assert forall|n: int|
                                                        0 <= n < nsym && !grammar@.terminal[n]
                                                            implies #[trigger] parent_linked(
                                                        grammar@,
                                                        self@,
                                                        n,
                                                    ) by {
                                                        if n == e as int {
                                                            assert(self@.best_parent[n] == Some(
                                                                p,
                                                            ));
                                                            assert(0 <= w < grammar@.prods[self@.best_parent[n]->0 as int].rhs.len());
                                                            assert((grammar@.prods[self@.best_parent[n]->0 as int].rhs[w as int])
                                                                as int == n);
                                                        } else {
                                                            assert(parent_linked(grammar@, v0, n));
                                                            assert(self@.best_parent[n]
                                                                == v0.best_parent[n]);
                                                            assert(self@.min_through[n]
                                                                == v0.min_through[n]);
                                                            if self@.best_parent[n] is Some {
                                                                let bp = v0.best_parent[n]->0 as int;
                                                                let w2 = choose|w2: int|
                                                                    0 <= w2 < grammar@.prods[bp].rhs.len()
                                                                        && (
                                                                    #[trigger] grammar@.prods[bp].rhs[w2])
                                                                        as int == n;
                                                                assert((grammar@.prods[self@.best_parent[n]->0 as int].rhs[w2])
                                                                    as int == n);
                                                            }
                                                        }
                                                    }
                                                }
                                            }
                                        }
                                        w += 1;
                                    }
                                }
                            },
                            None => {},
                        }
                    },
                    _ => {},
                }
                p += 1;
            }
            proof {
                lemma_msum_nonneg(self@.min_through, nsym as int);
            }
        }
        Ok(())
    }

    /// Prepares a fresh emission over `grammar`: every nonterminal ready,
    /// nothing on the stack, no production marked, the grammar loaded.
    pub fn start_emission(&mut self, grammar: &Grammar)
        requires
            grammar.wf(),
        ensures
            final(self)@.symbol_min == old(self)@.symbol_min,
            final(self)@.prod_min == old(self)@.prod_min,
            final(self)@.best_prod == old(self)@.best_prod,
            final(self)@.axiom_id == old(self)@.axiom_id,
            final(self)@.min_through == old(self)@.min_through,
            final(self)@.best_parent == old(self)@.best_parent,
            final(self)@.which_prod.len() == grammar@.names.len(),
            forall|k: int|
                0 <= k < grammar@.names.len() ==> (#[trigger] final(self)@.which_prod[k]) is Ready,
            final(self)@.on_stack.len() == grammar@.names.len(),
            forall|k: int|
                0 <= k < grammar@.names.len() ==> (#[trigger] final(self)@.on_stack[k]) == 0,
            final(self)@.prod_marked.len() == grammar@.prods.len(),
            forall|k: int|
                0 <= k < grammar@.prods.len() ==> (#[trigger] final(self)@.prod_marked[k]) == false,
            final(self)@.in_sentence.len() == 0,
            final(self)@.out_sentence.len() == 0,
            final(self)@.num_emitted == 0,
            final(self)@.exhausted == false,
            final(self)@.grammar == Some(grammar@),
    {
        self.clear_emission();
        let nsym = grammar.num_symbols();
        let mut i: usize = 0;
        while i < nsym
            invariant
                0 <= i <= nsym,
                self@.symbol_min == old(self)@.symbol_min,
                self@.prod_min == old(self)@.prod_min,
                self@.best_prod == old(self)@.best_prod,
                self@.axiom_id == old(self)@.axiom_id,
                self@.min_through == old(self)@.min_through,
                self@.best_parent == old(self)@.best_parent,
                self@.which_prod.len() == i,
                forall|k: int| 0 <= k < i ==> (#[trigger] self@.which_prod[k]) is Ready,
                self@.on_stack.len() == i,
                forall|k: int| 0 <= k < i ==> (#[trigger] self@.on_stack[k]) == 0,
                self@.prod_marked.len() == 0,
                self@.in_sentence.len() == 0,
                self@.out_sentence.len() == 0,
                self@.num_emitted == 0,
                self@.exhausted == false,
                self@.grammar is None,
            decreases nsym - i,
        {
            self.which_prod.push(ProductionUsed::Ready);
            self.on_stack.push(0);
            i += 1;
        }
        let nprod = grammar.len();
        let mut q: usize = 0;
        while q < nprod
            invariant
                0 <= q <= nprod,
                self@.symbol_min == old(self)@.symbol_min,
                self@.prod_min == old(self)@.prod_min,
                self@.best_prod == old(self)@.best_prod,
                self@.axiom_id == old(self)@.axiom_id,
                self@.min_through == old(self)@.min_through,
                self@.best_parent == old(self)@.best_parent,
                self@.which_prod.len() == nsym,
                forall|k: int| 0 <= k < nsym ==> (#[trigger] self@.which_prod[k]) is Ready,
                self@.on_stack.len() == nsym,
                forall|k: int| 0 <= k < nsym ==> (#[trigger] self@.on_stack[k]) == 0,
                self@.prod_marked.len() == q,
                forall|k: int| 0 <= k < q ==> (#[trigger] self@.prod_marked[k]) == false,
                self@.in_sentence.len() == 0,
                self@.out_sentence.len() == 0,
                self@.num_emitted == 0,
                self@.exhausted == false,
                self@.grammar is None,
                nsym == grammar@.names.len(),
            decreases nprod - q,
        {
            self.prod_marked.push(false);
            q += 1;
        }
        self.grammar = Some(grammar.clone());
    }
}

/// One production considered for choosing: an unmarked production whose
/// head is still open (`Ready` or `Unsure`) is assigned to its head and
/// marked; anything else changes nothing.
pub open spec fn choose_step(
    wp: Seq<ProductionUsed>,
    marked: Seq<bool>,
    g: GrammarView,
    p: int,
) -> (Seq<ProductionUsed>, Seq<bool>) {
    let lhs = g.prods[p].lhs as int;
    if !marked[p] && (wp[lhs] is Ready || wp[lhs] is Unsure) {
        (wp.update(lhs, ProductionUsed::ID(p as ProductionID)), marked.update(p, true))
    } else {
        (wp, marked)
    }
}

/// The choices after considering the first `n` productions in order.
pub open spec fn choose_upto(
    wp: Seq<ProductionUsed>,
    marked: Seq<bool>,
    g: GrammarView,
    n: int,
) -> (Seq<ProductionUsed>, Seq<bool>)
    decreases n,
{
    if n <= 0 {
        (wp, marked)
    } else {
        let prev = choose_upto(wp, marked, g, n - 1);
        choose_step(prev.0, prev.1, g, n - 1)
    }
}

/// Choosing marks monotonically, and a head that stays open afterwards had
/// every one of its productions already marked.
proof fn lemma_choose_closed(
    wp: Seq<ProductionUsed>,
    mk: Seq<bool>,
    g: GrammarView,
    n: int,
    a: int,
)
    requires
        crate::grammar::gview_wf(g),
        0 <= n <= g.prods.len(),
        mk.len() == g.prods.len(),
        wp.len() == g.names.len(),
        0 <= a < wp.len(),
    ensures
        ({
            let r = choose_upto(wp, mk, g, n);
            &&& r.0.len() == wp.len()
            &&& r.1.len() == mk.len()
            &&& (forall|p: int| 0 <= p < mk.len() && mk[p] ==> #[trigger] r.1[p])
            &&& ((wp[a] is Finished || wp[a] is ID) ==> r.0[a] == wp[a])
            &&& (r.0[a] is Finished ==> wp[a] is Finished)
            &&& ((r.0[a] is Ready || r.0[a] is Unsure) ==> r.0[a] == wp[a] && (forall|p: int|
                0 <= p < n && (#[trigger] g.prods[p]).lhs as int == a ==> r.1[p]))
        }),
    decreases n,
{
    if n > 0 {
        lemma_choose_closed(wp, mk, g, n - 1, a);
        let prev = choose_upto(wp, mk, g, n - 1);
        let r = choose_step(prev.0, prev.1, g, n - 1);
        let lhs = g.prods[n - 1].lhs as int;
        if r.0[a] is Ready || r.0[a] is Unsure {
            if !prev.1[n - 1] && (prev.0[lhs] is Ready || prev.0[lhs] is Unsure) {
                // the step assigned: its head cannot be `a`, which stayed open
                assert(r.0[lhs] is ID);
                assert(lhs != a);
            } else {
                assert(r == prev);
                if lhs == a {
                    assert(prev.1[n - 1]);
                }
            }
        }
    }
}

/// The position of the last nonterminal of `s`, or -1 when every symbol is
/// terminal.
pub open spec fn last_nonterminal(g: GrammarView, s: Seq<SymbolID>) -> int
    decreases s.len(),
{
    if s.len() == 0 {
        -1
    } else if !g.terminal[s.last() as int] {
        s.len() - 1
    } else {
        last_nonterminal(g, s.drop_last())
    }
}

pub proof fn lemma_last_nonterminal(g: GrammarView, s: Seq<SymbolID>)
    ensures
        ({
            let j = last_nonterminal(g, s);
            &&& -1 <= j < s.len()
            &&& (j >= 0 ==> !g.terminal[s[j] as int])
            &&& forall|q: int| j < q < s.len() ==> g.terminal[(#[trigger] s[q]) as int]
        }),
    decreases s.len(),
{
    if s.len() > 0 && g.terminal[s.last() as int] {
        lemma_last_nonterminal(g, s.drop_last());
        let j = last_nonterminal(g, s.drop_last());
        assert forall|q: int| j < q < s.len() implies g.terminal[(#[trigger] s[q]) as int] by {
            if q < s.len() - 1 {
                assert(s.drop_last()[q] == s[q]);
            }
        }
    }
}

/// The expansion-stack counters after pushing the first `n` right-hand
/// symbols: every nonterminal occurrence raises its counter, saturating at
/// the top of the counter range.
pub open spec fn bump_counts(
    os: Seq<usize>,
    g: GrammarView,
    rhs: Seq<SymbolID>,
    n: int,
) -> Seq<usize>
    decreases n,
{
    if n <= 0 {
        os
    } else {
        let prev = bump_counts(os, g, rhs, n - 1);
        let id = rhs[n - 1] as int;
        if !g.terminal[id] && 0 <= id < prev.len() {
            if prev[id] < usize::MAX {
                prev.update(id, (prev[id] + 1) as usize)
            } else {
                prev
            }
        } else {
            prev
        }
    }
}

/// One derivation step: some nonterminal occurrence of `a` is rewritten by
/// a production of `g` with that nonterminal on the left, yielding `b`.
pub open spec fn step_rewrites(g: GrammarView, a: Seq<SymbolID>, b: Seq<SymbolID>) -> bool {
    exists|i: int, p: int|
        0 <= i < a.len() && 0 <= p < g.prods.len() && (#[trigger] a[i]) == (
        #[trigger] g.prods[p]).lhs && b == a.take(i) + g.prods[p].rhs + a.skip(i + 1)
}

pub open spec fn derives_n(g: GrammarView, a: Seq<SymbolID>, b: Seq<SymbolID>, n: nat) -> bool
    decreases n,
{
    if n == 0 {
        a == b
    } else {
        exists|m: Seq<SymbolID>|
            #[trigger] step_rewrites(g, a, m) && derives_n(g, m, b, (n - 1) as nat)
    }
}

/// `b` is derivable from `a` in `g`: reachable by finitely many rewrites.
pub open spec fn derives(g: GrammarView, a: Seq<SymbolID>, b: Seq<SymbolID>) -> bool {
    exists|n: nat| derives_n(g, a, b, n)
}

pub proof fn lemma_derives_refl(g: GrammarView, a: Seq<SymbolID>)
    ensures
        derives(g, a, a),
{
    assert(derives_n(g, a, a, 0));
}

proof fn lemma_derives_n_extend(
    g: GrammarView,
    a: Seq<SymbolID>,
    b: Seq<SymbolID>,
    c: Seq<SymbolID>,
    n: nat,
)
    requires
        derives_n(g, a, b, n),
        step_rewrites(g, b, c),
    ensures
        derives_n(g, a, c, (n + 1) as nat),
    decreases n,
{
    if n == 0 {
        assert(step_rewrites(g, a, c));
        assert(derives_n(g, c, c, 0));
        assert(derives_n(g, a, c, 1));
    } else {
        let m = choose|m: Seq<SymbolID>|
            #[trigger] step_rewrites(g, a, m) && derives_n(g, m, b, (n - 1) as nat);
        lemma_derives_n_extend(g, m, b, c, (n - 1) as nat);
        assert(derives_n(g, a, c, (n + 1) as nat));
    }
}

proof fn lemma_reverse_concat<A>(a: Seq<A>, b: Seq<A>)
    ensures
        (a + b).reverse() == b.reverse() + a.reverse(),
{
    assert((a + b).reverse() =~= b.reverse() + a.reverse());
}

proof fn lemma_reverse_reverse<A>(a: Seq<A>)
    ensures
        a.reverse().reverse() == a,
{
    assert(a.reverse().reverse() =~= a);
}

/// Every production whose head is the chosen start nonterminal has been
/// used in some emitted sentence: nothing of the axiom is left unexplored.
pub open spec fn axiom_prods_marked(v: GeneratorView, g: GrammarView) -> bool {
    forall|p: int|
        0 <= p < g.prods.len() && (#[trigger] g.prods[p]).lhs as int == v.axiom_id->0 as int
            ==> v.prod_marked[p]
}

/// Expanding the pending nonterminal of a sentential form by a production
/// with it on the left is one more derivation step.
proof fn lemma_expand_form(
    g: GrammarView,
    start_sym: SymbolID,
    in0: Seq<SymbolID>,
    out0: Seq<SymbolID>,
    nt: SymbolID,
    p: int,
)
    requires
        derives(g, seq![start_sym], in0 + seq![nt] + out0.reverse()),
        0 <= p < g.prods.len(),
        g.prods[p].lhs == nt,
    ensures
        derives(g, seq![start_sym], (in0 + g.prods[p].rhs) + out0.reverse()),
{
    let form0 = in0 + seq![nt] + out0.reverse();
    let form1 = (in0 + g.prods[p].rhs) + out0.reverse();
    let i = in0.len() as int;
    assert(form0[i] == nt);
    assert(form0.take(i) =~= in0);
    assert(form0.skip(i + 1) =~= out0.reverse());
    assert(form1 =~= form0.take(i) + g.prods[p].rhs + form0.skip(i + 1));
    assert(step_rewrites(g, form0, form1));
    lemma_derives_step(g, seq![start_sym], form0, form1);
}

/// Moving the trailing terminals of the expanded stack to the output keeps
/// the sentential form: the new stack, pending nonterminal and reversed
/// output spell the same form.
proof fn lemma_rearrange_some(g: GrammarView, s_exp: Seq<SymbolID>, out0: Seq<SymbolID>)
    requires
        last_nonterminal(g, s_exp) >= 0,
    ensures
        ({
            let j = last_nonterminal(g, s_exp);
            s_exp.take(j) + seq![s_exp[j]] + (out0 + s_exp.skip(j + 1).reverse()).reverse()
                == s_exp + out0.reverse()
        }),
{
    let j = last_nonterminal(g, s_exp);
    lemma_last_nonterminal(g, s_exp);
    lemma_reverse_concat(out0, s_exp.skip(j + 1).reverse());
    lemma_reverse_reverse(s_exp.skip(j + 1));
    assert(s_exp.take(j) + seq![s_exp[j]] + (out0 + s_exp.skip(j + 1).reverse()).reverse() =~= s_exp
        + out0.reverse());
}

/// When the whole expanded stack was terminal, the reversed output spells
/// the form.
proof fn lemma_rearrange_none(g: GrammarView, s_exp: Seq<SymbolID>, out0: Seq<SymbolID>)
    ensures
        (out0 + s_exp.reverse()).reverse() == s_exp + out0.reverse(),
{
    lemma_reverse_concat(out0, s_exp.reverse());
    lemma_reverse_reverse(s_exp);
    assert((out0 + s_exp.reverse()).reverse() =~= s_exp + out0.reverse());
}

/// A derivation extended by one more rewrite still derives.
pub proof fn lemma_derives_step(
    g: GrammarView,
    a: Seq<SymbolID>,
    b: Seq<SymbolID>,
    c: Seq<SymbolID>,
)
    requires
        derives(g, a, b),
        step_rewrites(g, b, c),
    ensures
        derives(g, a, c),
{
    let n = choose|n: nat| derives_n(g, a, b, n);
    lemma_derives_n_extend(g, a, b, c, n);
}

/// Everything the emission steps rely on, stated against the grammar they
/// run over: tables in range, and only grammar symbols in the sentences.
pub open spec fn state_ok(v: GeneratorView, g: GrammarView) -> bool {
    &&& crate::grammar::gview_wf(g)
    &&& tables_ok(v, g.names.len() as int, g.prods.len() as int)
    &&& emission_ok(v, g)
    &&& (forall|k: int|
        0 <= k < v.in_sentence.len() ==> (#[trigger] v.in_sentence[k]) < g.names.len())
    &&& (forall|k: int|
        0 <= k < v.out_sentence.len() ==> (#[trigger] v.out_sentence[k]) < g.names.len()
            && g.terminal[v.out_sentence[k] as int])
}

impl Generator {
    /// Marks the shortest production of `nt` as used and hands it back.  A
    /// nonterminal without a best production yields nothing, and the caller
    /// ends the enumeration; such a nonterminal cannot derive any sentence,
    /// so no emission is lost.
    fn use_best_production(&mut self, grammar: &Grammar, nt: SymbolID) -> (r: Option<ProductionID>)
        requires
            state_ok(old(self)@, grammar@),
            old(self)@.grammar is None,
            nt < grammar@.names.len(),
        ensures
            state_ok(final(self)@, grammar@),
            final(self)@.grammar is None,
            final(self)@.axiom_id == old(self)@.axiom_id,
            final(self)@.in_sentence == old(self)@.in_sentence,
            final(self)@.out_sentence == old(self)@.out_sentence,
            final(self)@.num_emitted == old(self)@.num_emitted,
            final(self)@.exhausted == old(self)@.exhausted,
            final(self)@.symbol_min == old(self)@.symbol_min,
            final(self)@.prod_min == old(self)@.prod_min,
            final(self)@.best_prod == old(self)@.best_prod,
            final(self)@.min_through == old(self)@.min_through,
            final(self)@.best_parent == old(self)@.best_parent,
            final(self)@.on_stack == old(self)@.on_stack,
            match r {
                Some(p) => {
                    &&& p < grammar@.prods.len()
                    &&& old(self)@.best_prod[nt as int] == Some(p)
                    &&& final(self)@.prod_marked == old(self)@.prod_marked.update(p as int, true)
                    &&& final(self)@.which_prod == (if old(self)@.which_prod[nt as int]
                        is Finished {
                        old(self)@.which_prod
                    } else {
                        old(self)@.which_prod.update(nt as int, ProductionUsed::Ready)
                    })
                },
                None => {
                    &&& old(self)@.best_prod[nt as int] is None
                    &&& final(self)@.which_prod == old(self)@.which_prod
                    &&& final(self)@.prod_marked == old(self)@.prod_marked
                },
            },
    {
        let r = match self.best_prod[nt] {
            Some(best) => {
                self.prod_marked[best] = true;
                let keep_finished = match &self.which_prod[nt] {
                    ProductionUsed::Finished => true,
                    _ => false,
                };
                if !keep_finished {
                    self.which_prod[nt] = ProductionUsed::Ready;
                }
                Some(best)
            },
            None => None,
        };
        proof {
            lemma_sentence_range_transfer(old(self)@.in_sentence, self@.in_sentence, grammar@);
            lemma_out_range_transfer(old(self)@.out_sentence, self@.out_sentence, grammar@);
            if r is Some {
                assert(self@.prod_marked =~= old(self)@.prod_marked.update(r->0 as int, true));
                if old(self)@.which_prod[nt as int] is Finished {
                    assert(self@.which_prod =~= old(self)@.which_prod);
                } else {
                    assert(self@.which_prod =~= old(self)@.which_prod.update(
                        nt as int,
                        ProductionUsed::Ready,
                    ));
                }
            }
        }
        r
    }

    /// Assigns each nonterminal still open in this round its first unmarked
    /// production, marking it.
    fn choose_productions(&mut self, grammar: &Grammar)
        requires
            state_ok(old(self)@, grammar@),
            old(self)@.grammar is None,
        ensures
            state_ok(final(self)@, grammar@),
            final(self)@.grammar is None,
            final(self)@.axiom_id == old(self)@.axiom_id,
            final(self)@.in_sentence == old(self)@.in_sentence,
            final(self)@.out_sentence == old(self)@.out_sentence,
            final(self)@.num_emitted == old(self)@.num_emitted,
            final(self)@.exhausted == old(self)@.exhausted,
            final(self)@.symbol_min == old(self)@.symbol_min,
            final(self)@.prod_min == old(self)@.prod_min,
            final(self)@.best_prod == old(self)@.best_prod,
            final(self)@.min_through == old(self)@.min_through,
            final(self)@.best_parent == old(self)@.best_parent,
            final(self)@.on_stack == old(self)@.on_stack,
            final(self)@.which_prod == choose_upto(
                old(self)@.which_prod,
                old(self)@.prod_marked,
                grammar@,
                grammar@.prods.len() as int,
            ).0,
            final(self)@.prod_marked == choose_upto(
                old(self)@.which_prod,
                old(self)@.prod_marked,
                grammar@,
                grammar@.prods.len() as int,
            ).1,
    {
        let nprod = grammar.len();
        let mut p: usize = 0;
        while p < nprod
            invariant
                0 <= p <= nprod,
                nprod == grammar@.prods.len(),
                state_ok(self@, grammar@),
                self@.grammar is None,
                self@.axiom_id == old(self)@.axiom_id,
                self@.in_sentence == old(self)@.in_sentence,
                self@.out_sentence == old(self)@.out_sentence,
                self@.num_emitted == old(self)@.num_emitted,
                self@.exhausted == old(self)@.exhausted,
                self@.symbol_min == old(self)@.symbol_min,
                self@.prod_min == old(self)@.prod_min,
                self@.best_prod == old(self)@.best_prod,
                self@.min_through == old(self)@.min_through,
                self@.best_parent == old(self)@.best_parent,
                self@.on_stack == old(self)@.on_stack,
                self@.which_prod == choose_upto(
                    old(self)@.which_prod,
                    old(self)@.prod_marked,
                    grammar@,
                    p as int,
                ).0,
                self@.prod_marked == choose_upto(
                    old(self)@.which_prod,
                    old(self)@.prod_marked,
                    grammar@,
                    p as int,
                ).1,
            decreases nprod - p,
        {
            let ghost wp0 = self@.which_prod;
            let ghost mk0 = self@.prod_marked;
            if !self.prod_marked[p] {
                let prod = match grammar.get(p) {
                    Some(pr) => pr,
                    None => unreached(),
                };
                let lhs = prod.lhs();
                proof {
                    assert(grammar@.prods[p as int].lhs < grammar@.names.len());
                }
                let open_nt = match &self.which_prod[lhs] {
                    ProductionUsed::Ready => true,
                    ProductionUsed::Unsure => true,
                    _ => false,
                };
                if open_nt {
                    self.which_prod[lhs] = ProductionUsed::ID(p);
                    self.prod_marked[p] = true;
                }
            }
            proof {
                assert(self@.which_prod =~= choose_step(wp0, mk0, grammar@, p as int).0);
                assert(self@.prod_marked =~= choose_step(wp0, mk0, grammar@, p as int).1);
                lemma_sentence_range_transfer(
                    old(self)@.in_sentence,
                    self@.in_sentence,
                    grammar@,
                );
                lemma_out_range_transfer(old(self)@.out_sentence, self@.out_sentence, grammar@);
            }
            p += 1;
        }
    }

    /// Expands one production: its right-hand side goes onto the input
    /// stack; pending terminals move to the output sentence; the first
    /// nonterminal popped is handed back, or nothing when the sentence is
    /// complete.
    #[verifier::rlimit(100)]
    #[verifier::spinoff_prover]
    fn update_sentence(&mut self, grammar: &Grammar, prod_id: ProductionID) -> (r: Option<
        SymbolID,
    >)
        requires
            state_ok(old(self)@, grammar@),
            old(self)@.grammar is None,
            prod_id < grammar@.prods.len(),
        ensures
            state_ok(final(self)@, grammar@),
            final(self)@.grammar is None,
            final(self)@.axiom_id == old(self)@.axiom_id,
            final(self)@.num_emitted == old(self)@.num_emitted,
            final(self)@.exhausted == old(self)@.exhausted,
            final(self)@.symbol_min == old(self)@.symbol_min,
            final(self)@.prod_min == old(self)@.prod_min,
            final(self)@.best_prod == old(self)@.best_prod,
            final(self)@.min_through == old(self)@.min_through,
            final(self)@.best_parent == old(self)@.best_parent,
            final(self)@.which_prod == old(self)@.which_prod,
            final(self)@.prod_marked == old(self)@.prod_marked,
            ({
                let rhs = grammar@.prods[prod_id as int].rhs;
                let s = old(self)@.in_sentence + rhs;
                let j = last_nonterminal(grammar@, s);
                &&& final(self)@.on_stack == bump_counts(
                    old(self)@.on_stack,
                    grammar@,
                    rhs,
                    rhs.len() as int,
                )
                &&& (j >= 0 ==> r == Some(s[j]) && final(self)@.in_sentence == s.take(j)
                    && final(self)@.out_sentence == old(self)@.out_sentence + s.skip(
                    j + 1,
                ).reverse())
                &&& (j < 0 ==> r is None && final(self)@.in_sentence.len() == 0
                    && final(self)@.out_sentence == old(self)@.out_sentence + s.reverse())
            }),
            match r {
                Some(nt) => nt < grammar@.names.len() && !grammar@.terminal[nt as int],
                None => final(self)@.in_sentence.len() == 0,
            },
    {
        let prod = match grammar.get(prod_id) {
            Some(pr) => pr,
            None => unreached(),
        };
        let ghost rhsv = grammar@.prods[prod_id as int].rhs;
        let ghost s = old(self)@.in_sentence + rhsv;
        let rhs = prod.rhs();
        let mut w: usize = 0;
        while w < rhs.len()
            invariant
                0 <= w <= rhs@.len(),
                rhs@ == rhsv,
                rhsv == grammar@.prods[prod_id as int].rhs,
                s == old(self)@.in_sentence + rhsv,
                prod_id < grammar@.prods.len(),
                state_ok(self@, grammar@),
                self@.grammar is None,
                self@.axiom_id == old(self)@.axiom_id,
                self@.out_sentence == old(self)@.out_sentence,
                self@.num_emitted == old(self)@.num_emitted,
                self@.exhausted == old(self)@.exhausted,
                self@.symbol_min == old(self)@.symbol_min,
                self@.prod_min == old(self)@.prod_min,
                self@.best_prod == old(self)@.best_prod,
                self@.min_through == old(self)@.min_through,
                self@.best_parent == old(self)@.best_parent,
                self@.which_prod == old(self)@.which_prod,
                self@.prod_marked == old(self)@.prod_marked,
                self@.in_sentence == old(self)@.in_sentence + rhsv.take(w as int),
                self@.on_stack == bump_counts(old(self)@.on_stack, grammar@, rhsv, w as int),
            decreases rhs@.len() - w,
        {
            let id = rhs[w];
            proof {
                assert(grammar@.prods[prod_id as int].rhs[w as int] == id);
                assert(id < grammar@.names.len());
            }
            let ghost prev_in = self@.in_sentence;
            self.in_sentence.push(id);
            proof {
                lemma_range_push(prev_in, self@.in_sentence, id, grammar@);
                assert(self@.in_sentence =~= old(self)@.in_sentence + rhsv.take(w + 1));
            }
            if !grammar.is_terminal(id) {
                let count = self.on_stack[id];
                match count.checked_add(1) {
                    Some(c) => {
                        self.on_stack[id] = c;
                    },
                    None => {},
                }
                proof {
                    lemma_sentence_range_transfer(
                        prev_in.push(id),
                        self@.in_sentence,
                        grammar@,
                    );
                    lemma_out_range_transfer(
                        old(self)@.out_sentence,
                        self@.out_sentence,
                        grammar@,
                    );
                    assert(self@.on_stack =~= bump_counts(
                        old(self)@.on_stack,
                        grammar@,
                        rhsv,
                        w + 1,
                    ));
                }
            } else {
                proof {
                    assert(self@.on_stack =~= bump_counts(
                        old(self)@.on_stack,
                        grammar@,
                        rhsv,
                        w + 1,
                    ));
                }
            }
            w += 1;
        }
        proof {
            assert(self@.in_sentence =~= s);
            lemma_last_nonterminal(grammar@, s);
        }
        loop
            invariant
                state_ok(self@, grammar@),
                self@.grammar is None,
                self@.axiom_id == old(self)@.axiom_id,
                self@.num_emitted == old(self)@.num_emitted,
                self@.exhausted == old(self)@.exhausted,
                self@.symbol_min == old(self)@.symbol_min,
                self@.prod_min == old(self)@.prod_min,
                self@.best_prod == old(self)@.best_prod,
                self@.min_through == old(self)@.min_through,
                self@.best_parent == old(self)@.best_parent,
                self@.which_prod == old(self)@.which_prod,
                self@.prod_marked == old(self)@.prod_marked,
                self@.on_stack == bump_counts(
                    old(self)@.on_stack,
                    grammar@,
                    rhsv,
                    rhsv.len() as int,
                ),
                rhsv == grammar@.prods[prod_id as int].rhs,
                s == old(self)@.in_sentence + rhsv,
                self@.in_sentence.len() <= s.len(),
                self@.in_sentence == s.take(self@.in_sentence.len() as int),
                self@.out_sentence == old(self)@.out_sentence + s.skip(
                    self@.in_sentence.len() as int,
                ).reverse(),
                forall|q: int|
                    self@.in_sentence.len() <= q < s.len() ==> grammar@.terminal[(
                    #[trigger] s[q]) as int],
            decreases self@.in_sentence.len(),
        {
            let ghost prev_in = self@.in_sentence;
            let ghost prev_out = self@.out_sentence;
            let ghost m = prev_in.len() as int;
            match self.in_sentence.pop() {
                Some(id) => {
                    proof {
                        assert(id == prev_in.last());
                        assert(prev_in.last() == s[m - 1]);
                        assert(id < grammar@.names.len());
                        lemma_range_drop(prev_in, self@.in_sentence, grammar@);
                        assert(self@.in_sentence =~= s.take(m - 1));
                    }
                    if grammar.is_terminal(id) {
                        self.out_sentence.push(id);
                        proof {
                            lemma_out_push(prev_out, self@.out_sentence, id, grammar@);
                            assert(s.skip(m - 1) =~= seq![s[m - 1]] + s.skip(m));
                            assert(s.skip(m - 1).reverse() =~= s.skip(m).reverse().push(s[m - 1]));
                            assert(self@.out_sentence =~= old(self)@.out_sentence + s.skip(
                                m - 1,
                            ).reverse());
                        }
                    } else {
                        proof {
                            assert(!grammar@.terminal[id as int]);
                            lemma_last_nonterminal(grammar@, s);
                            let j = last_nonterminal(grammar@, s);
                            assert(j == m - 1) by {
                                assert(!grammar@.terminal[s[m - 1] as int]);
                                if j > m - 1 {
                                    assert(grammar@.terminal[s[j] as int]);
                                }
                                if j < m - 1 {
                                    assert(grammar@.terminal[s[m - 1] as int]);
                                }
                            }
                        }
                        return Some(id);
                    }
                },
                None => {
                    proof {
                        assert(s.take(0) =~= Seq::<SymbolID>::empty());
                        lemma_last_nonterminal(grammar@, s);
                        let j = last_nonterminal(grammar@, s);
                        if j >= 0 {
                            assert(grammar@.terminal[s[j] as int]);
                        }
                        assert(s.skip(0) =~= s);
                    }
                    return None;
                },
            }
        }
    }

    /// Whether the enumeration was cut short by the step bound rather than
    /// ending at the halting criterion.
    pub fn is_exhausted(&self) -> (r: bool)
        ensures
            r == self@.exhausted,
    {
        self.exhausted
    }

    /// Emits the next sentence, or nothing when the enumeration has ended.
    /// Every emitted sentence is the terminal yield of a derivation from
    /// the chosen start nonterminal.  `fuel` bounds the expansion steps
    /// spent on one sentence; a sentence that needs more steps ends the
    /// enumeration for good, with `exhausted` recording why.
    #[verifier::rlimit(100)]
    #[verifier::spinoff_prover]
    pub fn next(&mut self, fuel: usize) -> (r: Option<String>)
        requires
            old(self).emitting(),
        ensures
            final(self).emitting(),
            final(self)@.grammar == old(self)@.grammar,
            final(self)@.axiom_id == old(self)@.axiom_id,
            old(self)@.which_prod[old(self)@.axiom_id->0 as int] is Finished ==> r is None,
            match r {
                Some(s) => {
                    &&& s@ == render_rev(old(self)@.grammar->0, final(self)@.out_sentence)
                    &&& derives(
                        old(self)@.grammar->0,
                        seq![old(self)@.axiom_id->0],
                        final(self)@.out_sentence.reverse(),
                    )
                    &&& final(self)@.num_emitted == (if old(self)@.num_emitted < u64::MAX {
                        (old(self)@.num_emitted + 1) as u64
                    } else {
                        old(self)@.num_emitted
                    })
                },
                None => {
                    &&& final(self)@.num_emitted == old(self)@.num_emitted
                    &&& final(self)@.which_prod[old(self)@.axiom_id->0 as int] is Finished
                    &&& (final(self)@.exhausted
                        || old(self)@.which_prod[old(self)@.axiom_id->0 as int] is Finished
                        || axiom_prods_marked(final(self)@, old(self)@.grammar->0) || (
                    exists|n: int|
                        0 <= n < old(self)@.grammar->0.names.len()
                            && !old(self)@.grammar->0.terminal[n] && (
                        #[trigger] final(self)@.best_prod[n]) is None))
                },
            },
    {
        let grammar = match self.grammar.take() {
            Some(g) => g,
            None => unreached(),
        };
        let ghost gv = grammar@;
        let axiom_id = match self.axiom_id {
            Some(a) => a,
            None => unreached(),
        };
        let nsym = grammar.num_symbols();
        self.out_sentence.clear();
        self.in_sentence.clear();
        self.on_stack[axiom_id] = 1;
        proof {
            assert(self@.out_sentence.len() == 0);
            assert(self@.in_sentence.len() == 0);
            assert forall|k: int|
                0 <= k < self@.in_sentence.len() implies (#[trigger] self@.in_sentence[k])
                < gv.names.len() by {}
            assert(crate::grammar::gview_wf(gv));
            lemma_derives_refl(gv, seq![axiom_id]);
            assert(self@.in_sentence + seq![axiom_id] + self@.out_sentence.reverse() =~= seq![
                axiom_id,
            ]);
        }
        let finished_already = match &self.which_prod[axiom_id] {
            ProductionUsed::Finished => true,
            _ => false,
        };
        if finished_already {
            let ghost pinr = self@.in_sentence;
            let ghost poutr = self@.out_sentence;
            self.grammar = Some(grammar);
            proof {
                lemma_sentence_range_transfer(pinr, self@.in_sentence, gv);
                lemma_out_range_transfer(poutr, self@.out_sentence, gv);
            }
            return None;
        }
        let mut nt_id = axiom_id;
        let mut remaining = fuel;
        let mut completed = false;
        while !completed && remaining > 0
            invariant
                state_ok(self@, gv),
                gv == grammar@,
                old(self)@.grammar == Some(gv),
                old(self)@.axiom_id == Some(axiom_id),
                !(old(self)@.which_prod[axiom_id as int] is Finished),
                self@.num_emitted == old(self)@.num_emitted,
                self@.best_prod == old(self)@.best_prod,
                forall|n: int|
                    0 <= n < nsym ==> ((#[trigger] self@.best_prod[n]) is Some
                        ==> self@.best_prod[n]->0 < gv.prods.len()
                        && gv.prods[self@.best_prod[n]->0 as int].lhs as int == n),
                nsym == gv.names.len(),
                self@.grammar is None,
                self@.axiom_id == Some(axiom_id),
                axiom_id < gv.names.len(),
                !gv.terminal[axiom_id as int],
                nt_id < gv.names.len(),
                !gv.terminal[nt_id as int],
                self@.which_prod[axiom_id as int] is Finished ==> axiom_prods_marked(self@, gv),
                !completed ==> derives(
                    gv,
                    seq![axiom_id],
                    self@.in_sentence + seq![nt_id] + self@.out_sentence.reverse(),
                ),
                completed ==> derives(gv, seq![axiom_id], self@.out_sentence.reverse()),
            decreases remaining,
        {
            remaining = remaining - 1;
            let ghost in_h = self@.in_sentence;
            let ghost out_h = self@.out_sentence;
            let mut prod_id: ProductionID = 0;
            let mut have_prod = false;
            let state_now = match &self.which_prod[nt_id] {
                ProductionUsed::Finished => 0u8,
                ProductionUsed::ID(_) => 1u8,
                _ => 2u8,
            };
            if state_now == 0 {
                if nt_id == axiom_id {
                    let ghost pinr = self@.in_sentence;
                    let ghost poutr = self@.out_sentence;
                    self.grammar = Some(grammar);
                    proof {
                        lemma_sentence_range_transfer(pinr, self@.in_sentence, gv);
                        lemma_out_range_transfer(poutr, self@.out_sentence, gv);
                    }
                    return None;
                }
                match self.use_best_production(&grammar, nt_id) {
                    Some(p) => {
                        prod_id = p;
                        have_prod = true;
                    },
                    None => {
                        let ghost pinf = self@.in_sentence;
                        let ghost poutf = self@.out_sentence;
                        self.which_prod[axiom_id] = ProductionUsed::Finished;
                        proof {
                            lemma_sentence_range_transfer(pinf, self@.in_sentence, gv);
                            lemma_out_range_transfer(poutf, self@.out_sentence, gv);
                        }
                        let ghost pinr = self@.in_sentence;
                        let ghost poutr = self@.out_sentence;
                        self.grammar = Some(grammar);
                        proof {
                            lemma_sentence_range_transfer(pinr, self@.in_sentence, gv);
                            lemma_out_range_transfer(poutr, self@.out_sentence, gv);
                            assert((nt_id as int) < gv.names.len());
                            assert(!gv.terminal[nt_id as int]);
                            assert(self@.best_prod[nt_id as int] is None);
                        }
                        return None;
                    },
                }
            } else if state_now == 1 {
                let id = match &self.which_prod[nt_id] {
                    ProductionUsed::ID(id) => *id,
                    _ => unreached(),
                };
                prod_id = id;
                have_prod = true;
                let ghost pin = self@.in_sentence;
                let ghost pout = self@.out_sentence;
                self.which_prod[nt_id] = ProductionUsed::Ready;
                proof {
                    lemma_sentence_range_transfer(pin, self@.in_sentence, gv);
                    lemma_out_range_transfer(pout, self@.out_sentence, gv);
                }
            } else {
                let ghost wpc = self@.which_prod;
                let ghost mkc = self@.prod_marked;
                self.choose_productions(&grammar);
                proof {
                    lemma_choose_closed(wpc, mkc, gv, gv.prods.len() as int, axiom_id as int);
                    if self@.which_prod[axiom_id as int] is Ready {
                        assert(axiom_prods_marked(self@, gv));
                    }
                    if self@.which_prod[axiom_id as int] is Finished {
                        assert(wpc[axiom_id as int] is Finished);
                        assert forall|p: int|
                            0 <= p < gv.prods.len() && (#[trigger] gv.prods[p]).lhs as int
                                == axiom_id as int implies self@.prod_marked[p] by {
                            assert(mkc[p]);
                        }
                        assert(axiom_prods_marked(self@, gv));
                    }
                }
                // Walk the best-parent chains of every nonterminal that got
                // a production, seeding ancestors for later rounds.
                let mut other: usize = 0;
                while other < nsym
                    invariant
                        0 <= other <= nsym,
                        state_ok(self@, gv),
                        gv == grammar@,
                        nsym == gv.names.len(),
                        self@.grammar is None,
                        self@.axiom_id == Some(axiom_id),
                        self@.num_emitted == old(self)@.num_emitted,
                        self@.best_prod == old(self)@.best_prod,
                        self@.in_sentence == in_h,
                        self@.out_sentence == out_h,
                        self@.which_prod[axiom_id as int] is Ready ==> axiom_prods_marked(self@, gv),
                        self@.which_prod[axiom_id as int] is Finished ==> axiom_prods_marked(self@, gv),
                        forall|n2: int|
                        0 <= n2 < nsym ==> ((#[trigger] self@.best_prod[n2]) is Some
                        ==> self@.best_prod[n2]->0 < gv.prods.len()
                        && gv.prods[self@.best_prod[n2]->0 as int].lhs as int == n2),
                        axiom_id < gv.names.len(),
                        nt_id < gv.names.len(),
                    decreases nsym - other,
                {
                    let chosen = match &self.which_prod[other] {
                        ProductionUsed::ID(_) => true,
                        _ => false,
                    };
                    if other != axiom_id && chosen {
                        let mut best_lhs = other;
                        let mut steps: usize = 0;
                        while steps < nsym
                            invariant
                                0 <= steps <= nsym,
                                state_ok(self@, gv),
                                gv == grammar@,
                                nsym == gv.names.len(),
                                self@.grammar is None,
                                self@.axiom_id == Some(axiom_id),
                                self@.num_emitted == old(self)@.num_emitted,
                                self@.best_prod == old(self)@.best_prod,
                                self@.in_sentence == in_h,
                                self@.out_sentence == out_h,
                                self@.which_prod[axiom_id as int] is Ready ==> axiom_prods_marked(self@, gv),
                                self@.which_prod[axiom_id as int] is Finished ==> axiom_prods_marked(self@, gv),
                                forall|n2: int|
                                0 <= n2 < nsym ==> ((#[trigger] self@.best_prod[n2]) is Some
                                ==> self@.best_prod[n2]->0 < gv.prods.len()
                                && gv.prods[self@.best_prod[n2]->0 as int].lhs as int == n2),
                                axiom_id < gv.names.len(),
                                nt_id < gv.names.len(),
                                other < gv.names.len(),
                                best_lhs < gv.names.len(),
                            decreases nsym - steps,
                        {
                            let ghost pin = self@.in_sentence;
                            let ghost pout = self@.out_sentence;
                            let bp = match self.best_parent[best_lhs] {
                                Some(b) => b,
                                None => {
                                    break ;
                                },
                            };
                            let parent_prod = match grammar.get(bp) {
                                Some(pr) => pr,
                                None => unreached(),
                            };
                            best_lhs = parent_prod.lhs();
                            proof {
                                assert(gv.prods[bp as int].lhs < gv.names.len());
                            }
                            if self.on_stack[best_lhs] == 0 {
                                break ;
                            } else if self.on_stack[other] == 0 {
                                self.which_prod[best_lhs] = ProductionUsed::ID(bp);
                                self.prod_marked[bp] = true;
                            } else {
                                self.which_prod[best_lhs] = ProductionUsed::Unsure;
                            }
                            proof {
                                lemma_sentence_range_transfer(pin, self@.in_sentence, gv);
                                lemma_out_range_transfer(pout, self@.out_sentence, gv);
                            }
                            steps += 1;
                        }
                    }
                    other += 1;
                }
                // Whatever stayed open is exhausted.
                let mut id: usize = 0;
                while id < nsym
                    invariant
                        0 <= id <= nsym,
                        state_ok(self@, gv),
                        gv == grammar@,
                        nsym == gv.names.len(),
                        self@.grammar is None,
                        self@.axiom_id == Some(axiom_id),
                        self@.num_emitted == old(self)@.num_emitted,
                        self@.best_prod == old(self)@.best_prod,
                        self@.in_sentence == in_h,
                        self@.out_sentence == out_h,
                        self@.which_prod[axiom_id as int] is Ready ==> axiom_prods_marked(self@, gv),
                        self@.which_prod[axiom_id as int] is Finished ==> axiom_prods_marked(self@, gv),
                        forall|n2: int|
                        0 <= n2 < nsym ==> ((#[trigger] self@.best_prod[n2]) is Some
                        ==> self@.best_prod[n2]->0 < gv.prods.len()
                        && gv.prods[self@.best_prod[n2]->0 as int].lhs as int == n2),
                        axiom_id < gv.names.len(),
                        nt_id < gv.names.len(),
                    decreases nsym - id,
                {
                    let ghost pin = self@.in_sentence;
                    let ghost pout = self@.out_sentence;
                    let still_ready = match &self.which_prod[id] {
                        ProductionUsed::Ready => true,
                        _ => false,
                    };
                    if still_ready {
                        self.which_prod[id] = ProductionUsed::Finished;
                    }
                    proof {
                        lemma_sentence_range_transfer(pin, self@.in_sentence, gv);
                        lemma_out_range_transfer(pout, self@.out_sentence, gv);
                    }
                    id += 1;
                }
                let now_finished = match &self.which_prod[nt_id] {
                    ProductionUsed::Finished => true,
                    _ => false,
                };
                if nt_id == axiom_id && now_finished && self.on_stack[axiom_id] == 0 {
                    let ghost pinr = self@.in_sentence;
                    let ghost poutr = self@.out_sentence;
                    self.grammar = Some(grammar);
                    proof {
                        lemma_sentence_range_transfer(pinr, self@.in_sentence, gv);
                        lemma_out_range_transfer(poutr, self@.out_sentence, gv);
                    }
                    return None;
                }
                match &self.which_prod[nt_id] {
                    ProductionUsed::ID(id) => {
                        prod_id = *id;
                        have_prod = true;
                        let ghost pin = self@.in_sentence;
                        let ghost pout = self@.out_sentence;
                        self.which_prod[nt_id] = ProductionUsed::Ready;
                        proof {
                            lemma_sentence_range_transfer(pin, self@.in_sentence, gv);
                            lemma_out_range_transfer(pout, self@.out_sentence, gv);
                        }
                    },
                    _ => {
                        match self.use_best_production(&grammar, nt_id) {
                            Some(p) => {
                                prod_id = p;
                                have_prod = true;
                            },
                            None => {
                                let ghost pinf = self@.in_sentence;
                                let ghost poutf = self@.out_sentence;
                                self.which_prod[axiom_id] = ProductionUsed::Finished;
                                proof {
                                    lemma_sentence_range_transfer(pinf, self@.in_sentence, gv);
                                    lemma_out_range_transfer(poutf, self@.out_sentence, gv);
                                }
                                let ghost pinr = self@.in_sentence;
                                let ghost poutr = self@.out_sentence;
                                self.grammar = Some(grammar);
                                proof {
                                    lemma_sentence_range_transfer(pinr, self@.in_sentence, gv);
                                    lemma_out_range_transfer(poutr, self@.out_sentence, gv);
                                    assert((nt_id as int) < gv.names.len());
                                    assert(!gv.terminal[nt_id as int]);
                                    assert(self@.best_prod[nt_id as int] is None);
                                }
                                return None;
                            },
                        }
                    },
                }
            }
            if !have_prod {
                let ghost pinf = self@.in_sentence;
                let ghost poutf = self@.out_sentence;
                self.which_prod[axiom_id] = ProductionUsed::Finished;
                proof {
                    lemma_sentence_range_transfer(pinf, self@.in_sentence, gv);
                    lemma_out_range_transfer(poutf, self@.out_sentence, gv);
                }
                let ghost pinr = self@.in_sentence;
                let ghost poutr = self@.out_sentence;
                self.grammar = Some(grammar);
                proof {
                    lemma_sentence_range_transfer(pinr, self@.in_sentence, gv);
                    lemma_out_range_transfer(poutr, self@.out_sentence, gv);
                }
                return None;
            }
            proof {
                assert(prod_id < gv.prods.len());
                assert(gv.prods[prod_id as int].lhs as int == nt_id as int);
            }
            let count = self.on_stack[nt_id];
            let ghost pin2 = self@.in_sentence;
            let ghost pout2 = self@.out_sentence;
            if count > 0 {
                self.on_stack[nt_id] = count - 1;
            }
            proof {
                lemma_sentence_range_transfer(pin2, self@.in_sentence, gv);
                lemma_out_range_transfer(pout2, self@.out_sentence, gv);
            }
            let ghost in0 = self@.in_sentence;
            let ghost out0 = self@.out_sentence;
            let ghost s_exp = in0 + gv.prods[prod_id as int].rhs;
            proof {
                assert(in0 == in_h && out0 == out_h);
                lemma_expand_form(gv, axiom_id, in0, out0, nt_id, prod_id as int);
            }
            match self.update_sentence(&grammar, prod_id) {
                Some(id) => {
                    nt_id = id;
                    proof {
                        lemma_rearrange_some(gv, s_exp, out0);
                    }
                },
                None => {
                    completed = true;
                    proof {
                        lemma_rearrange_none(gv, s_exp, out0);
                    }
                },
            }
        }
        if !completed {
            // Out of fuel: the enumeration ends here for good.
            let ghost pinf = self@.in_sentence;
            let ghost poutf = self@.out_sentence;
            self.exhausted = true;
            self.which_prod[axiom_id] = ProductionUsed::Finished;
            proof {
                lemma_sentence_range_transfer(pinf, self@.in_sentence, gv);
                lemma_out_range_transfer(poutf, self@.out_sentence, gv);
            }
            let ghost pinr = self@.in_sentence;
            let ghost poutr = self@.out_sentence;
            self.grammar = Some(grammar);
            proof {
                lemma_sentence_range_transfer(pinr, self@.in_sentence, gv);
                lemma_out_range_transfer(poutr, self@.out_sentence, gv);
            }
            return None;
        }
        let ghost pin3 = self@.in_sentence;
        let ghost pout3 = self@.out_sentence;
        if self.num_emitted < u64::MAX {
            self.num_emitted = self.num_emitted + 1;
        }
        proof {
            lemma_sentence_range_transfer(pin3, self@.in_sentence, gv);
            lemma_out_range_transfer(pout3, self@.out_sentence, gv);
        }
        let result = self.out_sentence.as_string(&grammar);
        let ghost pinr = self@.in_sentence;
        let ghost poutr = self@.out_sentence;
        self.grammar = Some(grammar);
        proof {
            lemma_sentence_range_transfer(pinr, self@.in_sentence, gv);
            lemma_out_range_transfer(poutr, self@.out_sentence, gv);
            assert(derives(gv, seq![axiom_id], self@.out_sentence.reverse()));
        }
        Some(result)
    }
}

/// Range facts survive pushing an in-range symbol.
proof fn lemma_range_push(a: Seq<SymbolID>, b: Seq<SymbolID>, x: SymbolID, g: GrammarView)
    requires
        b == a.push(x),
        x < g.names.len(),
        forall|k: int| 0 <= k < a.len() ==> (#[trigger] a[k]) < g.names.len(),
    ensures
        forall|k: int| 0 <= k < b.len() ==> (#[trigger] b[k]) < g.names.len(),
{
    assert forall|k: int| 0 <= k < b.len() implies (#[trigger] b[k]) < g.names.len() by {
        if k < a.len() {
            assert(b[k] == a[k]);
        } else {
            assert(b[k] == x);
        }
    }
}

/// Range facts survive dropping the last symbol.
proof fn lemma_range_drop(a: Seq<SymbolID>, b: Seq<SymbolID>, g: GrammarView)
    requires
        a.len() > 0,
        b == a.drop_last(),
        forall|k: int| 0 <= k < a.len() ==> (#[trigger] a[k]) < g.names.len(),
    ensures
        forall|k: int| 0 <= k < b.len() ==> (#[trigger] b[k]) < g.names.len(),
{
    assert forall|k: int| 0 <= k < b.len() implies (#[trigger] b[k]) < g.names.len() by {
        assert(b[k] == a[k]);
    }
}

/// Terminal-range facts survive pushing a terminal.
proof fn lemma_out_push(a: Seq<SymbolID>, b: Seq<SymbolID>, x: SymbolID, g: GrammarView)
    requires
        b == a.push(x),
        x < g.names.len(),
        g.terminal[x as int],
        forall|k: int|
            0 <= k < a.len() ==> (#[trigger] a[k]) < g.names.len() && g.terminal[a[k] as int],
    ensures
        forall|k: int|
            0 <= k < b.len() ==> (#[trigger] b[k]) < g.names.len() && g.terminal[b[k] as int],
{
    assert forall|k: int|
        0 <= k < b.len() implies (#[trigger] b[k]) < g.names.len() && g.terminal[b[k] as int] by {
        if k < a.len() {
            assert(b[k] == a[k]);
        } else {
            assert(b[k] == x);
        }
    }
}

/// Range facts carry over to an equal sentence.
proof fn lemma_sentence_range_transfer(a: Seq<SymbolID>, b: Seq<SymbolID>, g: GrammarView)
    requires
        a == b,
        forall|k: int| 0 <= k < a.len() ==> (#[trigger] a[k]) < g.names.len(),
    ensures
        forall|k: int| 0 <= k < b.len() ==> (#[trigger] b[k]) < g.names.len(),
{
    assert forall|k: int| 0 <= k < b.len() implies (#[trigger] b[k]) < g.names.len() by {
        assert(a[k] == b[k]);
    }
}

proof fn lemma_out_range_transfer(a: Seq<SymbolID>, b: Seq<SymbolID>, g: GrammarView)
    requires
        a == b,
        forall|k: int|
            0 <= k < a.len() ==> (#[trigger] a[k]) < g.names.len() && g.terminal[a[k] as int],
    ensures
        forall|k: int|
            0 <= k < b.len() ==> (#[trigger] b[k]) < g.names.len() && g.terminal[b[k] as int],
{
    assert forall|k: int|
        0 <= k < b.len() implies (#[trigger] b[k]) < g.names.len() && g.terminal[b[k] as int] by {
        assert(a[k] == b[k]);
    }
}

/// One plus the summed bounds of the first `n` right-hand symbols of
/// production `p`, unknown when any bound is unknown.
pub open spec fn rhs_sum(g: GrammarView, sm: Seq<Option<usize>>, p: int, n: int) -> Option<int>
    decreases n,
{
    if n <= 0 {
        Some(1)
    } else {
        match rhs_sum(g, sm, p, n - 1) {
            None => None,
            Some(acc) => match sm[g.prods[p].rhs[n - 1] as int] {
                None => None,
                Some(b) => Some(acc + b as int),
            },
        }
    }
}

/// A partial sum only grows as more symbols are taken in.
proof fn lemma_rhs_sum_mono(g: GrammarView, sm: Seq<Option<usize>>, p: int, m: int, n: int)
    requires
        0 <= m <= n,
    ensures
        rhs_sum(g, sm, p, m) is None ==> rhs_sum(g, sm, p, n) is None,
        rhs_sum(g, sm, p, m) is Some && rhs_sum(g, sm, p, n) is Some ==> rhs_sum(
            g,
            sm,
            p,
            n,
        )->0 >= rhs_sum(g, sm, p, m)->0,
    decreases n - m,
{
    if m < n {
        lemma_rhs_sum_mono(g, sm, p, m, n - 1);
    }
}

/// Lowering symbol bounds pointwise keeps every defined sum defined and can
/// only lower it.
proof fn lemma_rhs_sum_lower(
    g: GrammarView,
    sm: Seq<Option<usize>>,
    sm2: Seq<Option<usize>>,
    p: int,
    n: int,
)
    requires
        crate::grammar::gview_wf(g),
        0 <= p < g.prods.len(),
        n <= g.prods[p].rhs.len(),
        sm.len() == g.names.len(),
        sm.len() == sm2.len(),
        forall|k: int|
            0 <= k < sm.len() ==> ((#[trigger] sm[k]) is Some ==> sm2[k] is Some && sm2[k]->0
                <= sm[k]->0),
    ensures
        rhs_sum(g, sm, p, n) is Some ==> rhs_sum(g, sm2, p, n) is Some && rhs_sum(g, sm2, p, n)->0
            <= rhs_sum(g, sm, p, n)->0,
    decreases n,
{
    if n > 0 {
        lemma_rhs_sum_lower(g, sm, sm2, p, n - 1);
    }
}

/// What relaxation leaves behind: every known production length is at least
/// its head's bound, and no production can improve anything further.
pub open spec fn relaxed(g: GrammarView, sm: Seq<Option<usize>>, pm: Seq<Option<usize>>) -> bool {
    forall|p: int|
        0 <= p < g.prods.len() ==> {
            let s = rhs_sum(g, sm, p, g.prods[p].rhs.len() as int);
            &&& ((#[trigger] pm[p]) is Some ==> sm[g.prods[p].lhs as int] is Some
                && sm[g.prods[p].lhs as int]->0 <= pm[p]->0)
            &&& (s is Some && s->0 <= usize::MAX ==> pm[p] is Some && pm[p]->0 <= s->0)
        }
}

/// What the axiom-specific relaxation leaves behind: whenever a production
/// head has known distance and bounds that propose a distance to a
/// right-hand nonterminal, that nonterminal's recorded distance is at most
/// the proposal.
pub open spec fn through_relaxed(
    g: GrammarView,
    sm: Seq<Option<usize>>,
    pm: Seq<Option<usize>>,
    mt: Seq<Option<usize>>,
) -> bool {
    forall|p: int|
        0 <= p < g.prods.len() ==> ((#[trigger] pm[p]) is Some && mt[g.prods[p].lhs as int] is Some
            && sm[g.prods[p].lhs as int] is Some && mt[g.prods[p].lhs as int]->0 + pm[p]->0
            <= usize::MAX && sm[g.prods[p].lhs as int]->0 <= mt[g.prods[p].lhs as int]->0
            + pm[p]->0 ==> (forall|w: int|
            0 <= w < g.prods[p].rhs.len() && !g.terminal[g.prods[p].rhs[w] as int] ==> {
                let proposal = mt[g.prods[p].lhs as int]->0 + pm[p]->0 - sm[g.prods[p].lhs as int]->0;
                (#[trigger] mt[g.prods[p].rhs[w] as int]) is Some
                    && mt[g.prods[p].rhs[w] as int]->0 <= proposal
            }))
}

/// The link the axiom-specific relaxation keeps for one nonterminal: a
/// recorded parent production really contains the nonterminal on its right,
/// and every recorded distance away from the axiom has such a parent.
pub open spec fn parent_linked(g: GrammarView, v: GeneratorView, n: int) -> bool {
    &&& (v.best_parent[n] is Some ==> v.min_through[n] is Some && (exists|w: int|
        0 <= w < g.prods[v.best_parent[n]->0 as int].rhs.len() && (
        #[trigger] g.prods[v.best_parent[n]->0 as int].rhs[w]) as int == n))
    &&& (v.min_through[n] is Some && n != v.axiom_id->0 as int ==> v.best_parent[n] is Some)
}

/// The recorded distance of the chosen start nonterminal never exceeds its
/// seed, the nonterminal's own shortest-derivation bound; and while no
/// parent production has been recorded for it, it still equals the seed.
pub open spec fn axiom_seed_bounded(v0: GeneratorView, v: GeneratorView) -> bool {
    &&& (v0.symbol_min[v.axiom_id->0 as int] is Some ==> v.min_through[v.axiom_id->0 as int]
        is Some && v.min_through[v.axiom_id->0 as int]->0 <= v0.symbol_min[v.axiom_id->0 as int]->0)
    &&& (v.best_parent[v.axiom_id->0 as int] is None ==> v.min_through[v.axiom_id->0 as int]
        == v0.symbol_min[v.axiom_id->0 as int])
}

/// The attainment side of the axiom-specific relaxation: a recorded
/// distance is at least the proposal of its recorded parent production, so
/// together with `through_relaxed` the recorded parent realizes it.
pub open spec fn parent_attained(g: GrammarView, v: GeneratorView, n: int) -> bool {
    v.best_parent[n] is Some ==> {
        let bp = v.best_parent[n]->0 as int;
        let l = g.prods[bp].lhs as int;
        &&& v.min_through[n] is Some
        &&& v.prod_min[bp] is Some
        &&& v.min_through[l] is Some
        &&& v.symbol_min[l] is Some
        &&& v.min_through[n]->0 as int >= v.min_through[l]->0 + v.prod_min[bp]->0
            - v.symbol_min[l]->0
    }
}

/// The potential of one bound: unknown counts as one more than any
/// representable length, so that every improvement shrinks the total.
pub open spec fn pot(o: Option<usize>) -> int {
    match o {
        None => usize::MAX as int + 1,
        Some(x) => x as int,
    }
}

/// The total potential of the first `n` bounds.
pub open spec fn msum(v: Seq<Option<usize>>, n: int) -> int
    decreases n,
{
    if n <= 0 {
        0
    } else {
        msum(v, n - 1) + pot(v[n - 1])
    }
}

pub proof fn lemma_msum_nonneg(v: Seq<Option<usize>>, n: int)
    ensures
        msum(v, n) >= 0,
    decreases n,
{
    if n > 0 {
        lemma_msum_nonneg(v, n - 1);
    }
}

/// Lowering one bound lowers the total potential.
pub proof fn lemma_msum_update(v: Seq<Option<usize>>, i: int, x: Option<usize>, n: int)
    requires
        0 <= i < n <= v.len(),
        pot(x) < pot(v[i]),
    ensures
        msum(v.update(i, x), n) < msum(v, n),
    decreases n,
{
    if n > 0 {
        if i == n - 1 {
            lemma_msum_same(v.update(i, x), v, n - 1);
        } else {
            lemma_msum_update(v, i, x, n - 1);
            assert(v.update(i, x)[n - 1] == v[n - 1]);
        }
    }
}

/// Two tables equal on a prefix have the same potential over it.
pub proof fn lemma_msum_same(a: Seq<Option<usize>>, b: Seq<Option<usize>>, n: int)
    requires
        n <= a.len(),
        n <= b.len(),
        forall|k: int| 0 <= k < n ==> a[k] == b[k],
    ensures
        msum(a, n) == msum(b, n),
    decreases n,
{
    if n > 0 {
        lemma_msum_same(a, b, n - 1);
    }
}

} // verus!