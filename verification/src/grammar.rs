use vstd::prelude::*;

verus! {

/// An index into a grammar's symbol table.
pub type SymbolID = usize;

/// An index into a grammar's production list.
pub type ProductionID = usize;

/// View of a production: its left-hand nonterminal and right-hand symbols.
#[verifier::ext_equal]
pub struct ProductionView {
    pub lhs: SymbolID,
    pub rhs: Seq<SymbolID>,
}

/// One production of a context-free grammar.
#[derive(Debug)]
pub struct Production {
    pub(crate) lhs: SymbolID,
    pub(crate) rhs: Vec<SymbolID>,
}

impl View for Production {
    type V = ProductionView;

    closed spec fn view(&self) -> ProductionView {
        ProductionView { lhs: self.lhs, rhs: self.rhs@ }
    }
}

impl DeepView for Production {
    type V = ProductionView;

    open spec fn deep_view(&self) -> ProductionView {
        self@
    }
}

impl Production {
    pub fn new(lhs: SymbolID, rhs: Vec<SymbolID>) -> (r: Production)
        ensures
            r@.lhs == lhs,
            r@.rhs == rhs@,
    {
        Production { lhs, rhs }
    }

    pub fn lhs(&self) -> (r: SymbolID)
        ensures
            r == self@.lhs,
    {
        self.lhs
    }

    pub fn rhs(&self) -> (r: &[SymbolID])
        ensures
            r@ == self@.rhs,
    {
        self.rhs.as_slice()
    }
}

impl Clone for Production {
    fn clone(&self) -> (r: Self)
        ensures
            r@ == self@,
    {
        let mut rhs: Vec<SymbolID> = Vec::new();
        let mut i: usize = 0;
        while i < self.rhs.len()
            invariant
                0 <= i <= self.rhs@.len(),
                rhs@ =~= self.rhs@.take(i as int),
            decreases self.rhs@.len() - i,
        {
            rhs.push(self.rhs[i]);
            i += 1;
        }
        proof {
            assert(rhs@ =~= self.rhs@);
        }
        Production { lhs: self.lhs, rhs }
    }
}

/// View of a grammar: which symbols are terminal, the symbol names, and the
/// productions.
#[verifier::ext_equal]
pub struct GrammarView {
    pub terminal: Seq<bool>,
    pub names: Seq<Seq<char>>,
    pub prods: Seq<ProductionView>,
}

/// A context-free grammar with separated terminal and nonterminal symbols
/// and indexed productions.
#[derive(Debug)]
pub struct Grammar {
    pub(crate) terminal: Vec<bool>,
    pub(crate) names: Vec<String>,
    pub(crate) productions: Vec<Production>,
}

impl View for Grammar {
    type V = GrammarView;

    closed spec fn view(&self) -> GrammarView {
        GrammarView {
            terminal: self.terminal@,
            names: self.names.deep_view(),
            prods: self.productions.deep_view(),
        }
    }
}

/// Validity of a grammar view: the flag and name tables run in parallel,
/// every production's head is a nonterminal, and every symbol mentioned
/// exists.
pub open spec fn gview_wf(g: GrammarView) -> bool {
    &&& g.terminal.len() == g.names.len()
    &&& forall|p: int|
        0 <= p < g.prods.len() ==> {
            let pr = #[trigger] g.prods[p];
            &&& pr.lhs < g.names.len()
            &&& !g.terminal[pr.lhs as int]
            &&& forall|k: int| 0 <= k < pr.rhs.len() ==> (#[trigger] pr.rhs[k]) < g.names.len()
        }
}

impl Grammar {
    /// Validity of this grammar's view.
    pub open spec fn wf(&self) -> bool {
        gview_wf(self@)
    }

    pub fn new() -> (r: Grammar)
        ensures
            r@.terminal == Seq::<bool>::empty(),
            r@.names == Seq::<Seq<char>>::empty(),
            r@.prods == Seq::<ProductionView>::empty(),
            r.wf(),
    {
        let r = Grammar { terminal: Vec::new(), names: Vec::new(), productions: Vec::new() };
        proof {
            assert(r@.terminal =~= Seq::<bool>::empty());
            assert(r@.names =~~= Seq::<Seq<char>>::empty());
            assert(r@.prods =~= Seq::<ProductionView>::empty());
        }
        r
    }

    /// Adds a terminal symbol and returns its id.
    pub fn add_terminal(&mut self, name: &str) -> (id: SymbolID)
        requires
            old(self).wf(),
        ensures
            final(self).wf(),
            id == old(self)@.names.len(),
            final(self)@.terminal == old(self)@.terminal.push(true),
            final(self)@.names == old(self)@.names.push(name@),
            final(self)@.prods == old(self)@.prods,
    {
        let id = self.names.len();
        self.names.push(name.to_owned());
        self.terminal.push(true);
        proof {
            assert(self@.names =~~= old(self)@.names.push(name@));
            assert(self@.terminal =~= old(self)@.terminal.push(true));
            assert(self@.prods =~= old(self)@.prods);
        }
        id
    }

    /// Adds a nonterminal symbol and returns its id.
    pub fn add_nonterminal(&mut self, name: &str) -> (id: SymbolID)
        requires
            old(self).wf(),
        ensures
            final(self).wf(),
            id == old(self)@.names.len(),
            final(self)@.terminal == old(self)@.terminal.push(false),
            final(self)@.names == old(self)@.names.push(name@),
            final(self)@.prods == old(self)@.prods,
    {
        let id = self.names.len();
        self.names.push(name.to_owned());
        self.terminal.push(false);
        proof {
            assert(self@.names =~~= old(self)@.names.push(name@));
            assert(self@.terminal =~= old(self)@.terminal.push(false));
            assert(self@.prods =~= old(self)@.prods);
        }
        id
    }

    /// Adds a production and returns its id.
    pub fn add_production(&mut self, lhs: SymbolID, rhs: Vec<SymbolID>) -> (id: ProductionID)
        requires
            old(self).wf(),
            lhs < old(self)@.names.len(),
            !old(self)@.terminal[lhs as int],
            forall|k: int| 0 <= k < rhs@.len() ==> (#[trigger] rhs@[k]) < old(self)@.names.len(),
        ensures
            final(self).wf(),
            id == old(self)@.prods.len(),
            final(self)@.terminal == old(self)@.terminal,
            final(self)@.names == old(self)@.names,
            final(self)@.prods == old(self)@.prods.push(
                ProductionView { lhs, rhs: rhs@ },
            ),
    {
        let id = self.productions.len();
        let ghost rv = rhs@;
        self.productions.push(Production { lhs, rhs });
        proof {
            assert(self@.prods =~~= old(self)@.prods.push(ProductionView { lhs, rhs: rv }));
            assert(self@.terminal =~= old(self)@.terminal);
            assert(self@.names =~~= old(self)@.names);
        }
        id
    }

    /// The number of productions.
    pub fn len(&self) -> (r: usize)
        ensures
            r == self@.prods.len(),
    {
        self.productions.len()
    }

    /// The number of symbols.
    pub fn num_symbols(&self) -> (r: usize)
        requires
            self.wf(),
        ensures
            r == self@.names.len(),
    {
        self.names.len()
    }

    pub fn get(&self, p: ProductionID) -> (r: Option<&Production>)
        ensures
            match r {
                Some(pr) => p < self@.prods.len() && pr@ == self@.prods[p as int],
                None => p >= self@.prods.len(),
            },
    {
        if p < self.productions.len() {
            let pr = &self.productions[p];
            proof {
                assert(pr@ == self@.prods[p as int]);
            }
            Some(pr)
        } else {
            None
        }
    }

    pub fn is_terminal(&self, id: SymbolID) -> (r: bool)
        requires
            self.wf(),
            id < self@.names.len(),
        ensures
            r == self@.terminal[id as int],
    {
        self.terminal[id]
    }

    /// The name of a terminal symbol.
    pub fn get_terminal(&self, id: SymbolID) -> (r: Option<&String>)
        requires
            self.wf(),
        ensures
            match r {
                Some(name) => id < self@.names.len() && self@.terminal[id as int] && name@
                    == self@.names[id as int],
                None => id >= self@.names.len() || !self@.terminal[id as int],
            },
    {
        if id < self.names.len() && self.terminal[id] {
            let name = &self.names[id];
            proof {
                assert(name@ == self@.names[id as int]);
            }
            Some(name)
        } else {
            None
        }
    }

    /// The id of the first nonterminal called `name`; nothing exactly when
    /// no nonterminal bears the name.
    pub fn id_of_nonterminal(&self, name: &str) -> (r: Option<SymbolID>)
        requires
            self.wf(),
        ensures
            match r {
                Some(id) => id < self@.names.len() && !self@.terminal[id as int] && self@.names[id as int]
                    == name@,
                None => forall|k: int|
                    0 <= k < self@.names.len() ==> !((#[trigger] self@.names[k]) == name@
                        && !self@.terminal[k]),
            },
    {
        let key: String = name.to_owned();
        let mut i: usize = 0;
        while i < self.names.len()
            invariant
                0 <= i <= self.names@.len(),
                self.wf(),
                key@ == name@,
                self@.names.len() == self.names@.len(),
                forall|k: int|
                    0 <= k < i ==> !((#[trigger] self@.names[k]) == name@ && !self@.terminal[k]),
            decreases self.names@.len() - i,
        {
            if self.names[i].eq(&key) && !self.terminal[i] {
                proof {
                    assert(self@.names[i as int] == name@);
                }
                return Some(i);
            }
            proof {
                assert(self@.names[i as int] == self.names@[i as int]@);
            }
            i += 1;
        }
        None
    }
}

impl Clone for Grammar {
    fn clone(&self) -> (r: Self)
        ensures
            r@ == self@,
    {
        let mut terminal: Vec<bool> = Vec::new();
        let mut i: usize = 0;
        while i < self.terminal.len()
            invariant
                0 <= i <= self.terminal@.len(),
                terminal@ =~= self.terminal@.take(i as int),
            decreases self.terminal@.len() - i,
        {
            terminal.push(self.terminal[i]);
            i += 1;
        }
        let mut names: Vec<String> = Vec::new();
        let mut j: usize = 0;
        while j < self.names.len()
            invariant
                0 <= j <= self.names@.len(),
                names@.len() == j,
                forall|k: int| 0 <= k < j ==> names@[k] == self.names@[k],
            decreases self.names@.len() - j,
        {
            names.push(self.names[j].clone());
            j += 1;
        }
        let mut productions: Vec<Production> = Vec::new();
        let mut q: usize = 0;
        while q < self.productions.len()
            invariant
                0 <= q <= self.productions@.len(),
                productions@.len() == q,
                forall|k: int| 0 <= k < q ==> (#[trigger] productions@[k])@
                    == self.productions@[k]@,
            decreases self.productions@.len() - q,
        {
            let c = self.productions[q].clone();
            proof {
                assert(c@ == self.productions@[q as int]@);
            }
            productions.push(c);
            q += 1;
        }
        let r = Grammar { terminal, names, productions };
        proof {
            assert(terminal@ =~= self.terminal@);
            assert(r@.names =~~= self@.names);
            assert(r@.prods =~~= self@.prods);
            assert(r@ =~~= self@);
        }
        r
    }
}

} // verus!
