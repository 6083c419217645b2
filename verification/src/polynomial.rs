use vstd::prelude::*;
use crate::AscesisError;

verus! {

/// A node: the surface name of a domain atom.  The backend context interns
/// such names into stable integer ids only at compile time.
pub type Node = String;

// --- Specification: order-keeping, deduplicating folds over names and monomials ---

/// Appends `x` to `acc` unless it is already present.
pub open spec fn push_unique_name(acc: Seq<Seq<char>>, x: Seq<char>) -> Seq<Seq<char>> {
    if acc.contains(x) {
        acc
    } else {
        acc.push(x)
    }
}

/// The first `n` names of `s` folded onto `acc`, keeping first occurrences only.
pub open spec fn add_names(acc: Seq<Seq<char>>, s: Seq<Seq<char>>, n: int) -> Seq<Seq<char>>
    decreases n,
{
    if n <= 0 {
        acc
    } else {
        push_unique_name(add_names(acc, s, n - 1), s[n - 1])
    }
}

/// All of `s` folded onto `acc`: the sum (union keeping order) of two node lists.
pub open spec fn merge_names(acc: Seq<Seq<char>>, s: Seq<Seq<char>>) -> Seq<Seq<char>> {
    add_names(acc, s, s.len() as int)
}

/// Appends monomial `m` to `acc` unless it is already present.
pub open spec fn push_unique_mono(acc: Seq<Seq<Seq<char>>>, m: Seq<Seq<char>>) -> Seq<
    Seq<Seq<char>>,
> {
    if acc.contains(m) {
        acc
    } else {
        acc.push(m)
    }
}

/// The first `n` monomials of `s` folded onto `acc`, keeping first occurrences.
pub open spec fn add_monos(acc: Seq<Seq<Seq<char>>>, s: Seq<Seq<Seq<char>>>, n: int) -> Seq<
    Seq<Seq<char>>,
>
    decreases n,
{
    if n <= 0 {
        acc
    } else {
        push_unique_mono(add_monos(acc, s, n - 1), s[n - 1])
    }
}

/// All of `s` folded onto `acc`: the sum of two polynomials.
pub open spec fn merge_monos(acc: Seq<Seq<Seq<char>>>, s: Seq<Seq<Seq<char>>>) -> Seq<
    Seq<Seq<char>>,
> {
    add_monos(acc, s, s.len() as int)
}

pub open spec fn distinct_names(s: Seq<Seq<char>>) -> bool {
    forall|i: int, j: int| 0 <= i < j < s.len() ==> s[i] != s[j]
}

pub open spec fn distinct_monos(s: Seq<Seq<Seq<char>>>) -> bool {
    forall|i: int, j: int| 0 <= i < j < s.len() ==> s[i] != s[j]
}

// --- Lemmas about the folds ---

/// Pushing onto a sequence adds exactly one member.
pub proof fn lemma_push_contains<T>(s: Seq<T>, x: T, y: T)
    ensures
        s.push(x).contains(y) <==> (s.contains(y) || y == x),
{
    if s.contains(y) {
        let i = choose|i: int| 0 <= i < s.len() && s[i] == y;
        assert(s.push(x)[i] == y);
    }
    assert(s.push(x)[s.len() as int] == x);
    if s.push(x).contains(y) {
        let i = choose|i: int| 0 <= i < s.push(x).len() && s.push(x)[i] == y;
        if i < s.len() {
            assert(s[i] == y);
        }
    }
}

pub proof fn lemma_add_names_contains(acc: Seq<Seq<char>>, s: Seq<Seq<char>>, n: int, x: Seq<char>)
    requires
        n <= s.len(),
    ensures
        add_names(acc, s, n).contains(x) <==> (acc.contains(x) || exists|k: int|
            0 <= k < n && s[k] == x),
    decreases n,
{
    if n > 0 {
        lemma_add_names_contains(acc, s, n - 1, x);
        let prev = add_names(acc, s, n - 1);
        if !prev.contains(s[n - 1]) {
            lemma_push_contains(prev, s[n - 1], x);
        }
    }
}

pub proof fn lemma_add_names_distinct(acc: Seq<Seq<char>>, s: Seq<Seq<char>>, n: int)
    requires
        n <= s.len(),
        distinct_names(acc),
    ensures
        distinct_names(add_names(acc, s, n)),
    decreases n,
{
    if n > 0 {
        lemma_add_names_distinct(acc, s, n - 1);
        let prev = add_names(acc, s, n - 1);
        if !prev.contains(s[n - 1]) {
            assert(forall|i: int| 0 <= i < prev.len() ==> prev[i] != s[n - 1]);
            assert(distinct_names(prev.push(s[n - 1])));
        }
    }
}

pub proof fn lemma_add_names_len(acc: Seq<Seq<char>>, s: Seq<Seq<char>>, n: int)
    ensures
        add_names(acc, s, n).len() >= acc.len(),
    decreases n,
{
    if n > 0 {
        lemma_add_names_len(acc, s, n - 1);
    }
}

pub proof fn lemma_add_monos_len(acc: Seq<Seq<Seq<char>>>, s: Seq<Seq<Seq<char>>>, n: int)
    ensures
        add_monos(acc, s, n).len() >= acc.len(),
    decreases n,
{
    if n > 0 {
        lemma_add_monos_len(acc, s, n - 1);
    }
}

pub proof fn lemma_add_monos_distinct(acc: Seq<Seq<Seq<char>>>, s: Seq<Seq<Seq<char>>>, n: int)
    requires
        n <= s.len(),
        distinct_monos(acc),
    ensures
        distinct_monos(add_monos(acc, s, n)),
    decreases n,
{
    if n > 0 {
        lemma_add_monos_distinct(acc, s, n - 1);
        let prev = add_monos(acc, s, n - 1);
        if !prev.contains(s[n - 1]) {
            assert(forall|i: int| 0 <= i < prev.len() ==> prev[i] != s[n - 1]);
            assert(distinct_monos(prev.push(s[n - 1])));
        }
    }
}

/// Every monomial of `add_monos(acc, s, n)` comes from `acc` or from `s`.
pub proof fn lemma_add_monos_contains(
    acc: Seq<Seq<Seq<char>>>,
    s: Seq<Seq<Seq<char>>>,
    n: int,
    x: Seq<Seq<char>>,
)
    requires
        n <= s.len(),
    ensures
        add_monos(acc, s, n).contains(x) <==> (acc.contains(x) || exists|k: int|
            0 <= k < n && s[k] == x),
    decreases n,
{
    if n > 0 {
        lemma_add_monos_contains(acc, s, n - 1, x);
        let prev = add_monos(acc, s, n - 1);
        if !prev.contains(s[n - 1]) {
            lemma_push_contains(prev, s[n - 1], x);
        }
    }
}

// --- Executable helpers on vectors of names ---

pub(crate) fn names_eq(a: &Vec<Node>, b: &Vec<Node>) -> (r: bool)
    ensures
        r == (a.deep_view() == b.deep_view()),
{
    if a.len() != b.len() {
        assert(a.deep_view().len() != b.deep_view().len());
        return false;
    }
    let mut i: usize = 0;
    while i < a.len()
        invariant
            0 <= i <= a.len(),
            a.len() == b.len(),
            forall|k: int| 0 <= k < i ==> a.deep_view()[k] == b.deep_view()[k],
        decreases a.len() - i,
    {
        if !a[i].eq(&b[i]) {
            assert(a.deep_view()[i as int] != b.deep_view()[i as int]);
            return false;
        }
        i += 1;
    }
    proof {
        assert(a.deep_view() =~~= b.deep_view());
    }
    true
}

pub(crate) fn contains_name(v: &Vec<Node>, x: &Node) -> (r: bool)
    ensures
        r == v.deep_view().contains(x@),
{
    let mut i: usize = 0;
    while i < v.len()
        invariant
            0 <= i <= v.len(),
            forall|k: int| 0 <= k < i ==> v.deep_view()[k] != x@,
        decreases v.len() - i,
    {
        if v[i].eq(x) {
            assert(v.deep_view()[i as int] == x@);
            return true;
        }
        i += 1;
    }
    assert(!v.deep_view().contains(x@));
    false
}

pub(crate) fn clone_names(v: &Vec<Node>) -> (r: Vec<Node>)
    ensures
        r@ == v@,
{
    let mut r: Vec<Node> = Vec::new();
    let mut i: usize = 0;
    while i < v.len()
        invariant
            0 <= i <= v.len(),
            r@.len() == i,
            forall|k: int| 0 <= k < i ==> r@[k] == v@[k],
        decreases v.len() - i,
    {
        r.push(v[i].clone());
        i += 1;
    }
    proof {
        assert(r@ =~= v@);
    }
    r
}

/// Folds the names of `m` into `acc`, skipping those already present.
pub(crate) fn merge_names_into(acc: &mut Vec<Node>, m: &Vec<Node>)
    ensures
        final(acc).deep_view() == merge_names(old(acc).deep_view(), m.deep_view()),
{
    let mut i: usize = 0;
    while i < m.len()
        invariant
            0 <= i <= m.len(),
            acc.deep_view() == add_names(old(acc).deep_view(), m.deep_view(), i as int),
        decreases m.len() - i,
    {
        let x = &m[i];
        if !contains_name(acc, x) {
            acc.push(x.clone());
            proof {
                assert(acc.deep_view() =~~= add_names(
                    old(acc).deep_view(),
                    m.deep_view(),
                    i + 1 as int,
                ));
            }
        }
        i += 1;
    }
}

// --- NodeList ---

/// An ordered sequence of distinct nodes, extractable from a single-monomial
/// polynomial.
#[derive(Debug)]
pub struct NodeList {
    pub(crate) nodes: Vec<Node>,
}

impl View for NodeList {
    type V = Seq<Seq<char>>;

    closed spec fn view(&self) -> Seq<Seq<char>> {
        self.nodes.deep_view()
    }
}

impl NodeList {
    /// Validity: the names are pairwise distinct.
    pub open spec fn wf(&self) -> bool {
        distinct_names(self@)
    }

    pub fn new() -> (r: NodeList)
        ensures
            r@ == Seq::<Seq<char>>::empty(),
            r.wf(),
    {
        let r = NodeList { nodes: Vec::new() };
        proof {
            assert(r@ =~~= Seq::<Seq<char>>::empty());
        }
        r
    }

    /// Builds a node list from names, keeping the first occurrence of each.
    pub fn from_names(names: Vec<&str>) -> (r: NodeList)
        ensures
            r@ == merge_names(Seq::<Seq<char>>::empty(), names.deep_view()),
            r.wf(),
    {
        let mut nodes: Vec<Node> = Vec::new();
        let mut i: usize = 0;
        while i < names.len()
            invariant
                0 <= i <= names.len(),
                nodes.deep_view() == add_names(
                    Seq::<Seq<char>>::empty(),
                    names.deep_view(),
                    i as int,
                ),
        decreases names.len() - i,
        {
            let x: Node = names[i].to_owned();
            proof {
                assert(x@ == names.deep_view()[i as int]);
            }
            if !contains_name(&nodes, &x) {
                nodes.push(x);
                proof {
                    assert(nodes.deep_view() =~~= add_names(
                        Seq::<Seq<char>>::empty(),
                        names.deep_view(),
                        i + 1 as int,
                    ));
                }
            }
            i += 1;
        }
        proof {
            lemma_add_names_distinct(
                Seq::<Seq<char>>::empty(),
                names.deep_view(),
                names.deep_view().len() as int,
            );
        }
        NodeList { nodes }
    }

    pub fn get_nodes(&self) -> (r: &[Node])
        ensures
            r.deep_view() == self@,
    {
        let r = self.nodes.as_slice();
        proof {
            assert(r.deep_view() =~~= self@);
        }
        r
    }

    pub fn len(&self) -> (r: usize)
        ensures
            r == self@.len(),
    {
        self.nodes.len()
    }

    /// Folds `other` into `self`: appends the names of `other` that are not
    /// already present, in order.
    pub fn add_assign(&mut self, other: &NodeList)
        requires
            old(self).wf(),
        ensures
            final(self)@ == merge_names(old(self)@, other@),
            final(self).wf(),
    {
        merge_names_into(&mut self.nodes, &other.nodes);
        proof {
            lemma_add_names_distinct(old(self)@, other@, other@.len() as int);
        }
    }
}

impl Clone for NodeList {
    fn clone(&self) -> (r: Self)
        ensures
            r@ == self@,
    {
        NodeList { nodes: clone_names(&self.nodes) }
    }
}

impl PartialEq for NodeList {
    fn eq(&self, other: &Self) -> (r: bool) {
        names_eq(&self.nodes, &other.nodes)
    }
}

impl vstd::std_specs::cmp::PartialEqSpecImpl for NodeList {
    open spec fn obeys_eq_spec() -> bool {
        true
    }

    open spec fn eq_spec(&self, other: &NodeList) -> bool {
        self@ == other@
    }
}

// --- Polynomial ---

/// The union of all names of the first `n` monomials of `p`, in order of
/// first occurrence.
pub open spec fn flatten_upto(p: Seq<Seq<Seq<char>>>, n: int) -> Seq<Seq<char>>
    decreases n,
{
    if n <= 0 {
        Seq::empty()
    } else {
        merge_names(flatten_upto(p, n - 1), p[n - 1])
    }
}

/// The set of names a polynomial mentions, as the single monomial of its
/// flattened form.
pub open spec fn flatten_poly(p: Seq<Seq<Seq<char>>>) -> Seq<Seq<char>> {
    flatten_upto(p, p.len() as int)
}

/// The product row: monomial `m1` multiplied by the first `n` monomials of
/// `b`, folded onto `acc`.
pub open spec fn mul_row(
    acc: Seq<Seq<Seq<char>>>,
    m1: Seq<Seq<char>>,
    b: Seq<Seq<Seq<char>>>,
    n: int,
) -> Seq<Seq<Seq<char>>>
    decreases n,
{
    if n <= 0 {
        acc
    } else {
        push_unique_mono(mul_row(acc, m1, b, n - 1), merge_names(m1, b[n - 1]))
    }
}

/// The first `n` rows of the product of `a` and `b`, folded onto `acc`.
pub open spec fn mul_upto(
    acc: Seq<Seq<Seq<char>>>,
    a: Seq<Seq<Seq<char>>>,
    b: Seq<Seq<Seq<char>>>,
    n: int,
) -> Seq<Seq<Seq<char>>>
    decreases n,
{
    if n <= 0 {
        acc
    } else {
        mul_row(mul_upto(acc, a, b, n - 1), a[n - 1], b, b.len() as int)
    }
}

/// The product of two polynomials: each pair of monomials merged, duplicates
/// dropped, in row-major order.
pub open spec fn mul_polys(a: Seq<Seq<Seq<char>>>, b: Seq<Seq<Seq<char>>>) -> Seq<Seq<Seq<char>>> {
    mul_upto(Seq::empty(), a, b, a.len() as int)
}

/// A formal sum of monomials, each an ordered list of distinct node names.
/// Supports addition (union of monomials) and multiplication (pairwise union
/// of monomials, flattened).
#[derive(Debug)]
pub struct Polynomial {
    pub(crate) monomials: Vec<Vec<Node>>,
}

impl View for Polynomial {
    type V = Seq<Seq<Seq<char>>>;

    closed spec fn view(&self) -> Seq<Seq<Seq<char>>> {
        self.monomials.deep_view()
    }
}

pub open spec fn poly_wf(p: Seq<Seq<Seq<char>>>) -> bool {
    &&& distinct_monos(p)
    &&& forall|i: int|
        0 <= i < p.len() ==> (#[trigger] p[i]).len() > 0 && distinct_names(p[i])
}

pub(crate) fn contains_mono(p: &Vec<Vec<Node>>, m: &Vec<Node>) -> (r: bool)
    ensures
        r == p.deep_view().contains(m.deep_view()),
{
    let mut i: usize = 0;
    while i < p.len()
        invariant
            0 <= i <= p.len(),
            forall|k: int| 0 <= k < i ==> p.deep_view()[k] != m.deep_view(),
        decreases p.len() - i,
    {
        if names_eq(&p[i], m) {
            assert(p.deep_view()[i as int] == m.deep_view());
            return true;
        }
        i += 1;
    }
    assert(!p.deep_view().contains(m.deep_view()));
    false
}

impl Polynomial {
    /// Validity: monomials pairwise distinct, each non-empty with distinct names.
    pub open spec fn wf(&self) -> bool {
        poly_wf(self@)
    }

    pub fn new() -> (r: Polynomial)
        ensures
            r@ == Seq::<Seq<Seq<char>>>::empty(),
            r.wf(),
    {
        let r = Polynomial { monomials: Vec::new() };
        proof {
            assert(r@ =~~= Seq::<Seq<Seq<char>>>::empty());
        }
        r
    }

    /// A polynomial of a single one-name monomial.
    pub fn from_name(name: &str) -> (r: Polynomial)
        ensures
            r@ == seq![seq![name@]],
            r.wf(),
    {
        let mut mono: Vec<Node> = Vec::new();
        mono.push(name.to_owned());
        let mut monomials: Vec<Vec<Node>> = Vec::new();
        monomials.push(mono);
        let r = Polynomial { monomials };
        proof {
            assert(r@ =~~= seq![seq![name@]]);
        }
        r
    }

    /// A polynomial from explicit monomials, keeping first occurrences of
    /// names within each monomial and of monomials within the sum.
    pub fn from_monomials(monos: Vec<Vec<&str>>) -> (r: Polynomial)
        ensures
            r.wf(),
            r@ == from_monos_spec(monos.deep_view()),
    {
        let mut monomials: Vec<Vec<Node>> = Vec::new();
        let mut i: usize = 0;
        while i < monos.len()
            invariant
                0 <= i <= monos.len(),
                monomials.deep_view() == from_monos_upto(monos.deep_view(), i as int),
                poly_wf(monomials.deep_view()),
            decreases monos.len() - i,
        {
            let src = &monos[i];
            let mut mono: Vec<Node> = Vec::new();
            let mut j: usize = 0;
            while j < src.len()
                invariant
                    0 <= j <= src.len(),
                    mono.deep_view() == add_names(
                        Seq::<Seq<char>>::empty(),
                        src.deep_view(),
                        j as int,
                    ),
                    distinct_names(mono.deep_view()),
                decreases src.len() - j,
            {
                let x: Node = src[j].to_owned();
                proof {
                    assert(x@ == src.deep_view()[j as int]);
                }
                if !contains_name(&mono, &x) {
                    mono.push(x);
                    proof {
                        assert(mono.deep_view() =~~= add_names(
                            Seq::<Seq<char>>::empty(),
                            src.deep_view(),
                            j + 1 as int,
                        ));
                        lemma_add_names_distinct(
                            Seq::<Seq<char>>::empty(),
                            src.deep_view(),
                            j + 1 as int,
                        );
                    }
                }
                j += 1;
            }
            proof {
                assert(monos.deep_view()[i as int] == src.deep_view());
            }
            if mono.len() > 0 && !contains_mono(&monomials, &mono) {
                monomials.push(mono);
                proof {
                    assert(monomials.deep_view() =~~= from_monos_upto(
                        monos.deep_view(),
                        i + 1 as int,
                    ));
                }
            }
            i += 1;
        }
        Polynomial { monomials }
    }

    pub fn is_empty(&self) -> (r: bool)
        ensures
            r == (self@.len() == 0),
    {
        self.monomials.len() == 0
    }

    /// Adds `other` into `self`: the monomials of `other` that are not already
    /// present are appended, in order.
    pub fn add_assign(&mut self, other: &Polynomial)
        requires
            old(self).wf(),
            other.wf(),
        ensures
            final(self)@ == merge_monos(old(self)@, other@),
            final(self).wf(),
    {
        let mut i: usize = 0;
        while i < other.monomials.len()
            invariant
                0 <= i <= other.monomials.len(),
                self@ == add_monos(old(self)@, other@, i as int),
                self.wf(),
                other.wf(),
            decreases other.monomials.len() - i,
        {
            let m = &other.monomials[i];
            proof {
                assert(m.deep_view() == other@[i as int]);
            }
            if !contains_mono(&self.monomials, m) {
                self.monomials.push(clone_names(m));
                proof {
                    assert(self@ =~~= add_monos(old(self)@, other@, i + 1 as int));
                }
            }
            i += 1;
        }
    }

    /// Multiplies `self` by `other`: every pair of monomials is merged into
    /// one monomial; duplicate monomials are dropped.
    pub fn mul_assign(&mut self, other: &Polynomial)
        requires
            old(self).wf(),
            other.wf(),
        ensures
            final(self)@ == mul_polys(old(self)@, other@),
            final(self).wf(),
    {
        let mut result: Vec<Vec<Node>> = Vec::new();
        let mut i: usize = 0;
        while i < self.monomials.len()
            invariant
                0 <= i <= self.monomials.len(),
                result.deep_view() == mul_upto(
                    Seq::<Seq<Seq<char>>>::empty(),
                    self@,
                    other@,
                    i as int,
                ),
                poly_wf(result.deep_view()),
                self.wf(),
                other.wf(),
            decreases self.monomials.len() - i,
        {
            let m1 = &self.monomials[i];
            proof {
                assert(m1.deep_view() == self@[i as int]);
            }
            let mut j: usize = 0;
            while j < other.monomials.len()
                invariant
                    0 <= j <= other.monomials.len(),
                    result.deep_view() == mul_row(
                        mul_upto(Seq::<Seq<Seq<char>>>::empty(), self@, other@, i as int),
                        self@[i as int],
                        other@,
                        j as int,
                    ),
                    poly_wf(result.deep_view()),
                    0 <= i < self.monomials.len(),
                    m1.deep_view() == self@[i as int],
                    m1.deep_view().len() > 0,
                    distinct_names(m1.deep_view()),
                    self.wf(),
                    other.wf(),
                decreases other.monomials.len() - j,
            {
                let m2 = &other.monomials[j];
                proof {
                    assert(m2.deep_view() == other@[j as int]);
                }
                let mut m = clone_names(m1);
                merge_names_into(&mut m, m2);
                proof {
                    lemma_add_names_distinct(m1.deep_view(), m2.deep_view(), m2.deep_view().len() as int);
                    lemma_add_names_len(m1.deep_view(), m2.deep_view(), m2.deep_view().len() as int);
                }
                if !contains_mono(&result, &m) {
                    result.push(m);
                    proof {
                        assert(result.deep_view() =~~= push_unique_mono(
                            mul_row(
                                mul_upto(Seq::<Seq<Seq<char>>>::empty(), self@, other@, i as int),
                                self@[i as int],
                                other@,
                                j as int,
                            ),
                            merge_names(self@[i as int], other@[j as int]),
                        ));
                    }
                }
                j += 1;
            }
            i += 1;
        }
        self.monomials = result;
    }

    /// A copy of `self` flattened to a single monomial holding the union of
    /// all names; the empty polynomial flattens to itself.
    pub fn flattened_clone(&self) -> (r: Polynomial)
        requires
            self.wf(),
        ensures
            self@.len() == 0 ==> r@ == Seq::<Seq<Seq<char>>>::empty(),
            self@.len() > 0 ==> r@ == seq![flatten_poly(self@)],
            r.wf(),
    {
        if self.monomials.len() == 0 {
            return Polynomial::new();
        }
        let mut names: Vec<Node> = Vec::new();
        let mut i: usize = 0;
        while i < self.monomials.len()
            invariant
                0 <= i <= self.monomials.len(),
                names.deep_view() == flatten_upto(self@, i as int),
                distinct_names(names.deep_view()),
                self.wf(),
            decreases self.monomials.len() - i,
        {
            let m = &self.monomials[i];
            proof {
                assert(m.deep_view() == self@[i as int]);
            }
            merge_names_into(&mut names, m);
            proof {
                lemma_add_names_distinct(
                    flatten_upto(self@, i as int),
                    self@[i as int],
                    self@[i as int].len() as int,
                );
            }
            i += 1;
        }
        proof {
            assert(self@[0].len() > 0);
            lemma_add_names_len(flatten_upto(self@, 0), self@[0], self@[0].len() as int);
            assert(flatten_upto(self@, 1).len() >= 0);
            lemma_flatten_upto_len(self@, self@.len() as int);
        }
        let mut monomials: Vec<Vec<Node>> = Vec::new();
        monomials.push(names);
        let r = Polynomial { monomials };
        proof {
            assert(r@ =~~= seq![flatten_poly(self@)]);
        }
        r
    }

    /// Interprets `self` as a node list.  Succeeds exactly when `self` is a
    /// single monomial; its names become the list.
    pub fn try_into_node_list(self) -> (r: Result<NodeList, AscesisError>)
        requires
            self.wf(),
        ensures
            r is Ok <==> self@.len() == 1,
            r is Ok ==> r->Ok_0@ == self@[0] && r->Ok_0.wf(),
            r is Err ==> r->Err_0 is NotANodeList,
    {
        if self.monomials.len() == 1 {
            let mut monomials = self.monomials;
            let mono = monomials.pop().unwrap();
            proof {
                assert(mono.deep_view() == self@[0]);
            }
            Ok(NodeList { nodes: mono })
        } else {
            Err(AscesisError::NotANodeList)
        }
    }
}

/// Each monomial of `flatten_upto(p, n)` for positive `n` is non-empty when
/// the first monomial of `p` is.
pub proof fn lemma_flatten_upto_len(p: Seq<Seq<Seq<char>>>, n: int)
    requires
        1 <= n <= p.len(),
        p[0].len() > 0,
    ensures
        flatten_upto(p, n).len() > 0,
    decreases n,
{
    if n == 1 {
        lemma_add_names_len(Seq::empty(), p[0], p[0].len() as int);
        lemma_add_names_contains(Seq::empty(), p[0], p[0].len() as int, p[0][0]);
        assert(exists|k: int| 0 <= k < p[0].len() && #[trigger] p[0][k] == p[0][0]);
        assert(merge_names(Seq::empty(), p[0]).contains(p[0][0]));
    } else {
        lemma_flatten_upto_len(p, n - 1);
        lemma_add_names_len(flatten_upto(p, n - 1), p[n - 1], p[n - 1].len() as int);
    }
}

/// A monomial of `monos` cleaned up: names deduplicated, first occurrences kept.
pub open spec fn clean_mono(m: Seq<Seq<char>>) -> Seq<Seq<char>> {
    add_names(Seq::empty(), m, m.len() as int)
}

/// The first `n` monomials of `monos`, each cleaned up, empty ones dropped,
/// duplicates dropped.
pub open spec fn from_monos_upto(monos: Seq<Seq<Seq<char>>>, n: int) -> Seq<Seq<Seq<char>>>
    decreases n,
{
    if n <= 0 {
        Seq::empty()
    } else {
        let prev = from_monos_upto(monos, n - 1);
        let m = clean_mono(monos[n - 1]);
        if m.len() > 0 {
            push_unique_mono(prev, m)
        } else {
            prev
        }
    }
}

pub open spec fn from_monos_spec(monos: Seq<Seq<Seq<char>>>) -> Seq<Seq<Seq<char>>> {
    from_monos_upto(monos, monos.len() as int)
}

/// Crate-internal bridge from the abstract view to the representation.
pub(crate) proof fn lemma_poly_rep(p: &Polynomial)
    ensures
        p@ == p.monomials.deep_view(),
{
}

impl Clone for Polynomial {
    fn clone(&self) -> (r: Self)
        ensures
            r@ == self@,
    {
        let mut monomials: Vec<Vec<Node>> = Vec::new();
        let mut i: usize = 0;
        while i < self.monomials.len()
            invariant
                0 <= i <= self.monomials.len(),
                monomials@.len() == i,
                forall|k: int| 0 <= k < i ==> monomials.deep_view()[k] == self@[k],
            decreases self.monomials.len() - i,
        {
            let c = clone_names(&self.monomials[i]);
            proof {
                assert(c.deep_view() =~~= self.monomials@[i as int].deep_view());
            }
            monomials.push(c);
            i += 1;
        }
        let r = Polynomial { monomials };
        proof {
            assert(r@ =~~= self@);
        }
        r
    }
}

impl PartialEq for Polynomial {
    fn eq(&self, other: &Self) -> (r: bool) {
        if self.monomials.len() != other.monomials.len() {
            assert(self@.len() != other@.len());
            return false;
        }
        let mut i: usize = 0;
        while i < self.monomials.len()
            invariant
                0 <= i <= self.monomials.len(),
                self.monomials.len() == other.monomials.len(),
                forall|k: int| 0 <= k < i ==> self@[k] == other@[k],
            decreases self.monomials.len() - i,
        {
            if !names_eq(&self.monomials[i], &other.monomials[i]) {
                assert(self@[i as int] != other@[i as int]);
                return false;
            }
            i += 1;
        }
        proof {
            assert(self@ =~~= other@);
        }
        true
    }
}

impl vstd::std_specs::cmp::PartialEqSpecImpl for Polynomial {
    open spec fn obeys_eq_spec() -> bool {
        true
    }

    open spec fn eq_spec(&self, other: &Polynomial) -> bool {
        self@ == other@
    }
}

} // verus!
