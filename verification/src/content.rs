use vstd::prelude::*;

verus! {

/// A node id: the stable integer a context interns a node name into.
/// Interned ids start at 1.
pub type NodeID = usize;

/// View of the per-node bindings of a content object: an association list
/// from node id to a polynomial of node ids, in first-touch order.
pub type EntriesView = Seq<(NodeID, Seq<Seq<NodeID>>)>;

/// View of a content object.
#[verifier::ext_equal]
pub struct ContentView {
    pub causes: EntriesView,
    pub effects: EntriesView,
}

pub open spec fn empty_content() -> ContentView {
    ContentView { causes: Seq::empty(), effects: Seq::empty() }
}

/// The first position binding `id`, or -1.
pub open spec fn first_entry(es: EntriesView, id: NodeID) -> int
    decreases es.len(),
{
    if es.len() == 0 {
        -1
    } else if es[0].0 == id {
        0
    } else {
        let r = first_entry(es.drop_first(), id);
        if r < 0 {
            -1
        } else {
            r + 1
        }
    }
}

pub proof fn lemma_first_entry(es: EntriesView, id: NodeID)
    ensures
        ({
            let r = first_entry(es, id);
            &&& (r == -1 ==> forall|k: int| 0 <= k < es.len() ==> (#[trigger] es[k]).0 != id)
            &&& (r != -1 ==> 0 <= r < es.len() && es[r].0 == id && forall|k: int|
                0 <= k < r ==> (#[trigger] es[k]).0 != id)
        }),
    decreases es.len(),
{
    if es.len() > 0 && es[0].0 != id {
        let rest = es.drop_first();
        lemma_first_entry(rest, id);
        let r2 = first_entry(rest, id);
        if r2 == -1 {
            assert forall|k: int| 0 <= k < es.len() implies (#[trigger] es[k]).0 != id by {
                if k >= 1 {
                    assert(es[k] == rest[k - 1]);
                }
            }
        } else {
            assert(es[r2 + 1] == rest[r2]);
            assert forall|k: int| 0 <= k < r2 + 1 implies (#[trigger] es[k]).0 != id by {
                if k >= 1 {
                    assert(es[k] == rest[k - 1]);
                }
            }
        }
    }
}

/// Appends a monomial of ids unless it is already present.
pub open spec fn push_unique_ids(acc: Seq<Seq<NodeID>>, m: Seq<NodeID>) -> Seq<Seq<NodeID>> {
    if acc.contains(m) {
        acc
    } else {
        acc.push(m)
    }
}

/// The first `n` monomials of `s` folded onto `acc`, keeping first occurrences.
pub open spec fn add_id_monos(acc: Seq<Seq<NodeID>>, s: Seq<Seq<NodeID>>, n: int) -> Seq<
    Seq<NodeID>,
>
    decreases n,
{
    if n <= 0 {
        acc
    } else {
        push_unique_ids(add_id_monos(acc, s, n - 1), s[n - 1])
    }
}

/// Appends an id to a monomial unless present.
pub open spec fn push_unique_id(acc: Seq<NodeID>, x: NodeID) -> Seq<NodeID> {
    if acc.contains(x) {
        acc
    } else {
        acc.push(x)
    }
}

/// The first `n` ids of `m` folded onto `acc`.
pub open spec fn add_ids(acc: Seq<NodeID>, m: Seq<NodeID>, n: int) -> Seq<NodeID>
    decreases n,
{
    if n <= 0 {
        acc
    } else {
        push_unique_id(add_ids(acc, m, n - 1), m[n - 1])
    }
}

/// One entry updated by summing `poly` in, or a new entry appended; an empty
/// polynomial changes nothing.
pub open spec fn entry_add(es: EntriesView, id: NodeID, poly: Seq<Seq<NodeID>>) -> EntriesView {
    if poly.len() == 0 {
        es
    } else {
        let j = first_entry(es, id);
        if j >= 0 {
            es.update(j, (id, add_id_monos(es[j].1, poly, poly.len() as int)))
        } else {
            es.push((id, poly))
        }
    }
}

/// A monomial multiplied onto every monomial of `old`, in order.
pub open spec fn poly_times_mono(old: Seq<Seq<NodeID>>, m: Seq<NodeID>, n: int) -> Seq<Seq<NodeID>>
    decreases n,
{
    if n <= 0 {
        Seq::empty()
    } else {
        push_unique_ids(poly_times_mono(old, m, n - 1), add_ids(old[n - 1], m, m.len() as int))
    }
}

/// The product of two polynomials of ids: for each monomial of `poly`, `old`
/// multiplied by it, the partial products summed in order.
pub open spec fn poly_product(old: Seq<Seq<NodeID>>, poly: Seq<Seq<NodeID>>, n: int) -> Seq<
    Seq<NodeID>,
>
    decreases n,
{
    if n <= 0 {
        Seq::empty()
    } else {
        let prev = poly_product(old, poly, n - 1);
        let row = poly_times_mono(old, poly[n - 1], old.len() as int);
        add_id_monos(prev, row, row.len() as int)
    }
}

/// One entry updated by multiplying `poly` in, or a new entry appended.
pub open spec fn entry_mul(es: EntriesView, id: NodeID, poly: Seq<Seq<NodeID>>) -> EntriesView {
    if poly.len() == 0 {
        es
    } else {
        let j = first_entry(es, id);
        if j >= 0 {
            es.update(j, (id, poly_product(es[j].1, poly, poly.len() as int)))
        } else {
            es.push((id, poly))
        }
    }
}

/// The first `n` entries of `other` summed into `es`.
pub open spec fn entries_add(es: EntriesView, other: EntriesView, n: int) -> EntriesView
    decreases n,
{
    if n <= 0 {
        es
    } else {
        entry_add(entries_add(es, other, n - 1), other[n - 1].0, other[n - 1].1)
    }
}

/// The first `n` entries of `other` multiplied into `es`.
pub open spec fn entries_mul(es: EntriesView, other: EntriesView, n: int) -> EntriesView
    decreases n,
{
    if n <= 0 {
        es
    } else {
        entry_mul(entries_mul(es, other, n - 1), other[n - 1].0, other[n - 1].1)
    }
}

/// The sum of two contents: per-node union of monomials, both sides.
pub open spec fn content_add(a: ContentView, b: ContentView) -> ContentView {
    ContentView {
        causes: entries_add(a.causes, b.causes, b.causes.len() as int),
        effects: entries_add(a.effects, b.effects, b.effects.len() as int),
    }
}

/// The product of two contents: per-node polynomial product on the nodes `b`
/// binds; nodes only `a` binds keep their polynomials.
pub open spec fn content_mul(a: ContentView, b: ContentView) -> ContentView {
    ContentView {
        causes: entries_mul(a.causes, b.causes, b.causes.len() as int),
        effects: entries_mul(a.effects, b.effects, b.effects.len() as int),
    }
}

// --- Executable content ---

/// The backend's accumulator of causes and effects per node: for each
/// touched node id, a polynomial of node ids on each side.  The backend
/// interface leaves the exact sum and product semantics open; this model
/// fixes them: entries are kept in first-touch order, a sum unions the
/// monomials bound to each node, and a product combines them pairwise.
#[derive(Debug)]
pub struct PartialContent {
    pub(crate) causes: Vec<(NodeID, Vec<Vec<NodeID>>)>,
    pub(crate) effects: Vec<(NodeID, Vec<Vec<NodeID>>)>,
}

pub open spec fn entries_view(v: Seq<(NodeID, Vec<Vec<NodeID>>)>) -> EntriesView {
    Seq::new(v.len(), |i: int| (v[i].0, v[i].1.deep_view()))
}

impl View for PartialContent {
    type V = ContentView;

    closed spec fn view(&self) -> ContentView {
        ContentView { causes: entries_view(self.causes@), effects: entries_view(self.effects@) }
    }
}

pub(crate) fn clone_id_poly(p: &Vec<Vec<NodeID>>) -> (r: Vec<Vec<NodeID>>)
    ensures
        r.deep_view() == p.deep_view(),
{
    let mut r: Vec<Vec<NodeID>> = Vec::new();
    let mut i: usize = 0;
    while i < p.len()
        invariant
            0 <= i <= p.len(),
            r@.len() == i,
            forall|k: int| 0 <= k < i ==> #[trigger] r@[k]@ == p@[k]@,
        decreases p.len() - i,
    {
        let mut m: Vec<NodeID> = Vec::new();
        let mut j: usize = 0;
        while j < p[i].len()
            invariant
                0 <= i < p.len(),
                0 <= j <= p@[i as int]@.len(),
                m@ =~= p@[i as int]@.take(j as int),
            decreases p@[i as int]@.len() - j,
        {
            m.push(p[i][j]);
            j += 1;
        }
        proof {
            assert(m@ =~= p@[i as int]@);
        }
        r.push(m);
        i += 1;
    }
    proof {
        assert(r.deep_view() =~~= p.deep_view());
    }
    r
}

pub(crate) fn id_monos_eq(a: &Vec<NodeID>, b: &Vec<NodeID>) -> (r: bool)
    ensures
        r == (a@ == b@),
{
    if a.len() != b.len() {
        return false;
    }
    let mut i: usize = 0;
    while i < a.len()
        invariant
            0 <= i <= a.len(),
            a.len() == b.len(),
            forall|k: int| 0 <= k < i ==> a@[k] == b@[k],
        decreases a.len() - i,
    {
        if a[i] != b[i] {
            return false;
        }
        i += 1;
    }
    proof {
        assert(a@ =~= b@);
    }
    true
}

pub(crate) fn contains_id_mono(p: &Vec<Vec<NodeID>>, m: &Vec<NodeID>) -> (r: bool)
    ensures
        r == p.deep_view().contains(m@),
{
    let mut i: usize = 0;
    while i < p.len()
        invariant
            0 <= i <= p.len(),
            forall|k: int| 0 <= k < i ==> p.deep_view()[k] != m@,
        decreases p.len() - i,
    {
        if id_monos_eq(&p[i], m) {
            assert(p.deep_view()[i as int] == m@);
            return true;
        }
        proof {
            assert(p.deep_view()[i as int] == p@[i as int]@);
        }
        i += 1;
    }
    assert(!p.deep_view().contains(m@));
    false
}

/// Sums `poly` into `acc`: monomials not yet present are appended in order.
pub(crate) fn merge_id_polys(acc: &mut Vec<Vec<NodeID>>, poly: &Vec<Vec<NodeID>>)
    ensures
        final(acc).deep_view() == add_id_monos(
            old(acc).deep_view(),
            poly.deep_view(),
            poly.deep_view().len() as int,
        ),
{
    let mut i: usize = 0;
    while i < poly.len()
        invariant
            0 <= i <= poly.len(),
            acc.deep_view() == add_id_monos(old(acc).deep_view(), poly.deep_view(), i as int),
        decreases poly.len() - i,
    {
        let m = &poly[i];
        proof {
            assert(m@ == poly.deep_view()[i as int]);
        }
        if !contains_id_mono(acc, m) {
            let mut c: Vec<NodeID> = Vec::new();
            let mut j: usize = 0;
            while j < m.len()
                invariant
                    0 <= j <= m@.len(),
                    c@ =~= m@.take(j as int),
                decreases m@.len() - j,
            {
                c.push(m[j]);
                j += 1;
            }
            proof {
                assert(c@ =~= m@);
            }
            acc.push(c);
            proof {
                assert(acc.deep_view() =~~= add_id_monos(
                    old(acc).deep_view(),
                    poly.deep_view(),
                    i + 1,
                ));
            }
        }
        i += 1;
    }
}

impl PartialContent {
    pub fn new() -> (r: PartialContent)
        ensures
            r@ == empty_content(),
    {
        let r = PartialContent { causes: Vec::new(), effects: Vec::new() };
        proof {
            assert(r@.causes =~= empty_content().causes);
            assert(r@.effects =~= empty_content().effects);
            assert(r@ =~~= empty_content());
        }
        r
    }

    /// Sums `poly` into the cause polynomial bound to `id`; an empty `poly`
    /// changes nothing.
    pub fn add_to_causes(&mut self, id: NodeID, poly: &Vec<Vec<NodeID>>)
        ensures
            final(self)@.causes == entry_add(old(self)@.causes, id, poly.deep_view()),
            final(self)@.effects == old(self)@.effects,
    {
        entries_add_one(&mut self.causes, id, poly);
        proof {
            assert(self@.effects =~= old(self)@.effects);
        }
    }

    /// Sums `poly` into the effect polynomial bound to `id`.
    pub fn add_to_effects(&mut self, id: NodeID, poly: &Vec<Vec<NodeID>>)
        ensures
            final(self)@.effects == entry_add(old(self)@.effects, id, poly.deep_view()),
            final(self)@.causes == old(self)@.causes,
    {
        entries_add_one(&mut self.effects, id, poly);
        proof {
            assert(self@.causes =~= old(self)@.causes);
        }
    }

    /// Sums `other` into `self`, entry by entry on both sides.
    pub fn add_assign(&mut self, other: &PartialContent)
        ensures
            final(self)@ == content_add(old(self)@, other@),
    {
        let mut i: usize = 0;
        while i < other.causes.len()
            invariant
                0 <= i <= other.causes@.len(),
                self@.causes == entries_add(old(self)@.causes, other@.causes, i as int),
                self@.effects == old(self)@.effects,
            decreases other.causes@.len() - i,
        {
            let id = other.causes[i].0;
            let poly = &other.causes[i].1;
            proof {
                assert(other@.causes[i as int] == (id, poly.deep_view()));
            }
            entries_add_one(&mut self.causes, id, poly);
            proof {
                assert(self@.effects =~= old(self)@.effects);
            }
            i += 1;
        }
        let mut j: usize = 0;
        while j < other.effects.len()
            invariant
                0 <= j <= other.effects@.len(),
                self@.causes == entries_add(
                    old(self)@.causes,
                    other@.causes,
                    other@.causes.len() as int,
                ),
                self@.effects == entries_add(old(self)@.effects, other@.effects, j as int),
            decreases other.effects@.len() - j,
        {
            let id = other.effects[j].0;
            let poly = &other.effects[j].1;
            proof {
                assert(other@.effects[j as int] == (id, poly.deep_view()));
            }
            entries_add_one(&mut self.effects, id, poly);
            proof {
                assert(self@.causes =~= entries_add(
                    old(self)@.causes,
                    other@.causes,
                    other@.causes.len() as int,
                ));
            }
            j += 1;
        }
        proof {
            assert(self@ =~~= content_add(old(self)@, other@));
        }
    }

    /// Multiplies `other` into `self`: on every node `other` binds, the
    /// polynomials are multiplied (or the entry adopted); other nodes keep
    /// their polynomials.
    pub fn mul_assign(&mut self, other: &PartialContent)
        ensures
            final(self)@ == content_mul(old(self)@, other@),
    {
        let mut i: usize = 0;
        while i < other.causes.len()
            invariant
                0 <= i <= other.causes@.len(),
                self@.causes == entries_mul(old(self)@.causes, other@.causes, i as int),
                self@.effects == old(self)@.effects,
            decreases other.causes@.len() - i,
        {
            let id = other.causes[i].0;
            let poly = &other.causes[i].1;
            proof {
                assert(other@.causes[i as int] == (id, poly.deep_view()));
            }
            entries_mul_one(&mut self.causes, id, poly);
            proof {
                assert(self@.effects =~= old(self)@.effects);
            }
            i += 1;
        }
        let mut j: usize = 0;
        while j < other.effects.len()
            invariant
                0 <= j <= other.effects@.len(),
                self@.causes == entries_mul(
                    old(self)@.causes,
                    other@.causes,
                    other@.causes.len() as int,
                ),
                self@.effects == entries_mul(old(self)@.effects, other@.effects, j as int),
            decreases other.effects@.len() - j,
        {
            let id = other.effects[j].0;
            let poly = &other.effects[j].1;
            proof {
                assert(other@.effects[j as int] == (id, poly.deep_view()));
            }
            entries_mul_one(&mut self.effects, id, poly);
            proof {
                assert(self@.causes =~= entries_mul(
                    old(self)@.causes,
                    other@.causes,
                    other@.causes.len() as int,
                ));
            }
            j += 1;
        }
        proof {
            assert(self@ =~~= content_mul(old(self)@, other@));
        }
    }

    /// The cause polynomial bound to `id`, if the node was touched.
    pub fn get_causes_by_id(&self, id: NodeID) -> (r: Option<Vec<Vec<NodeID>>>)
        ensures
            ({
                let j = first_entry(self@.causes, id);
                match r {
                    Some(p) => j >= 0 && p.deep_view() == self@.causes[j].1,
                    None => j == -1,
                }
            }),
    {
        entries_lookup(&self.causes, id)
    }

    /// The effect polynomial bound to `id`, if the node was touched.
    pub fn get_effects_by_id(&self, id: NodeID) -> (r: Option<Vec<Vec<NodeID>>>)
        ensures
            ({
                let j = first_entry(self@.effects, id);
                match r {
                    Some(p) => j >= 0 && p.deep_view() == self@.effects[j].1,
                    None => j == -1,
                }
            }),
    {
        entries_lookup(&self.effects, id)
    }
}

impl Clone for PartialContent {
    fn clone(&self) -> (r: Self)
        ensures
            r@ == self@,
    {
        let r = PartialContent {
            causes: clone_entries(&self.causes),
            effects: clone_entries(&self.effects),
        };
        proof {
            assert(r@ =~~= self@);
        }
        r
    }
}

pub(crate) fn clone_entries(v: &Vec<(NodeID, Vec<Vec<NodeID>>)>) -> (r: Vec<
    (NodeID, Vec<Vec<NodeID>>),
>)
    ensures
        entries_view(r@) == entries_view(v@),
{
    let mut r: Vec<(NodeID, Vec<Vec<NodeID>>)> = Vec::new();
    let mut i: usize = 0;
    while i < v.len()
        invariant
            0 <= i <= v.len(),
            r@.len() == i,
            forall|k: int|
                0 <= k < i ==> (#[trigger] r@[k]).0 == v@[k].0 && r@[k].1.deep_view()
                    == v@[k].1.deep_view(),
        decreases v.len() - i,
    {
        let id = v[i].0;
        let p = clone_id_poly(&v[i].1);
        r.push((id, p));
        i += 1;
    }
    proof {
        assert(entries_view(r@) =~~= entries_view(v@));
    }
    r
}

fn entries_lookup(v: &Vec<(NodeID, Vec<Vec<NodeID>>)>, id: NodeID) -> (r: Option<
    Vec<Vec<NodeID>>,
>)
    ensures
        ({
            let j = first_entry(entries_view(v@), id);
            match r {
                Some(p) => j >= 0 && p.deep_view() == entries_view(v@)[j].1,
                None => j == -1,
            }
        }),
{
    proof {
        lemma_first_entry(entries_view(v@), id);
    }
    let mut i: usize = 0;
    while i < v.len()
        invariant
            0 <= i <= v.len(),
            forall|k: int| 0 <= k < i ==> (#[trigger] entries_view(v@)[k]).0 != id,
        decreases v.len() - i,
    {
        if v[i].0 == id {
            proof {
                lemma_first_entry(entries_view(v@), id);
                assert(entries_view(v@)[i as int].0 == id);
            }
            return Some(clone_id_poly(&v[i].1));
        }
        proof {
            assert(entries_view(v@)[i as int].0 == v@[i as int].0);
        }
        i += 1;
    }
    proof {
        lemma_first_entry(entries_view(v@), id);
    }
    None
}

/// Sums `poly` into the entry for `id`, appending a new entry when absent.
fn entries_add_one(v: &mut Vec<(NodeID, Vec<Vec<NodeID>>)>, id: NodeID, poly: &Vec<Vec<NodeID>>)
    ensures
        entries_view(final(v)@) == entry_add(entries_view(old(v)@), id, poly.deep_view()),
{
    if poly.len() == 0 {
        return;
    }
    let ghost ev = entries_view(v@);
    proof {
        lemma_first_entry(ev, id);
    }
    let mut i: usize = 0;
    while i < v.len()
        invariant
            0 <= i <= v.len(),
            entries_view(v@) == ev,
            ev == entries_view(old(v)@),
            poly.deep_view().len() > 0,
            forall|k: int| 0 <= k < i ==> (#[trigger] ev[k]).0 != id,
        decreases v.len() - i,
    {
        if v[i].0 == id {
            proof {
                lemma_first_entry(ev, id);
                assert(ev[i as int].0 == id);
                assert(first_entry(ev, id) == i as int);
            }
            let ghost before: Seq<(NodeID, Vec<Vec<NodeID>>)> = v@;
            let mut e = v.remove(i);
            proof {
                assert(e == before[i as int]);
            }
            merge_id_polys(&mut e.1, poly);
            v.insert(i, e);
            proof {
                let target = entry_add(ev, id, poly.deep_view());
                assert forall|k: int|
                    0 <= k < v@.len() implies #[trigger] entries_view(v@)[k] == target[k] by {
                    assert(entries_view(v@)[k] == (v@[k].0, v@[k].1.deep_view()));
                    if k != i {
                        assert(v@[k] == before[k]);
                        assert(ev[k] == (before[k].0, before[k].1.deep_view()));
                    } else {
                        assert(ev[i as int] == (before[i as int].0, before[i as int].1.deep_view()));
                    }
                }
                assert(entries_view(v@) =~= target);
            }
            return;
        }
        proof {
            assert(ev[i as int].0 == v@[i as int].0);
        }
        i += 1;
    }
    proof {
        lemma_first_entry(ev, id);
        assert(first_entry(ev, id) == -1);
    }
    let p = clone_id_poly(poly);
    v.push((id, p));
    proof {
        assert(entries_view(v@) =~~= entry_add(ev, id, poly.deep_view()));
    }
}

/// Multiplies `poly` into the entry for `id`, appending when absent.
fn entries_mul_one(v: &mut Vec<(NodeID, Vec<Vec<NodeID>>)>, id: NodeID, poly: &Vec<Vec<NodeID>>)
    ensures
        entries_view(final(v)@) == entry_mul(entries_view(old(v)@), id, poly.deep_view()),
{
    if poly.len() == 0 {
        return;
    }
    let ghost ev = entries_view(v@);
    proof {
        lemma_first_entry(ev, id);
    }
    let mut i: usize = 0;
    while i < v.len()
        invariant
            0 <= i <= v.len(),
            entries_view(v@) == ev,
            ev == entries_view(old(v)@),
            poly.deep_view().len() > 0,
            forall|k: int| 0 <= k < i ==> (#[trigger] ev[k]).0 != id,
        decreases v.len() - i,
    {
        if v[i].0 == id {
            proof {
                lemma_first_entry(ev, id);
                assert(ev[i as int].0 == id);
                assert(first_entry(ev, id) == i as int);
            }
            let ghost before: Seq<(NodeID, Vec<Vec<NodeID>>)> = v@;
            let mut e = v.remove(i);
            proof {
                assert(e == before[i as int]);
            }
            let product = poly_product_exec(&e.1, poly);
            e.1 = product;
            v.insert(i, e);
            proof {
                let target = entry_mul(ev, id, poly.deep_view());
                assert forall|k: int|
                    0 <= k < v@.len() implies #[trigger] entries_view(v@)[k] == target[k] by {
                    assert(entries_view(v@)[k] == (v@[k].0, v@[k].1.deep_view()));
                    if k != i {
                        assert(v@[k] == before[k]);
                        assert(ev[k] == (before[k].0, before[k].1.deep_view()));
                    } else {
                        assert(ev[i as int] == (before[i as int].0, before[i as int].1.deep_view()));
                    }
                }
                assert(entries_view(v@) =~= target);
            }
            return;
        }
        proof {
            assert(ev[i as int].0 == v@[i as int].0);
        }
        i += 1;
    }
    proof {
        lemma_first_entry(ev, id);
        assert(first_entry(ev, id) == -1);
    }
    let p = clone_id_poly(poly);
    v.push((id, p));
    proof {
        assert(entries_view(v@) =~~= entry_mul(ev, id, poly.deep_view()));
    }
}

/// The product of two polynomials of node ids.
fn poly_product_exec(old_p: &Vec<Vec<NodeID>>, poly: &Vec<Vec<NodeID>>) -> (r: Vec<Vec<NodeID>>)
    ensures
        r.deep_view() == poly_product(
            old_p.deep_view(),
            poly.deep_view(),
            poly.deep_view().len() as int,
        ),
{
    let mut r: Vec<Vec<NodeID>> = Vec::new();
    let mut i: usize = 0;
    while i < poly.len()
        invariant
            0 <= i <= poly.len(),
            r.deep_view() == poly_product(old_p.deep_view(), poly.deep_view(), i as int),
        decreases poly.len() - i,
    {
        let m = &poly[i];
        proof {
            assert(m@ == poly.deep_view()[i as int]);
        }
        // One row: every monomial of `old_p` multiplied by `m`.
        let mut row: Vec<Vec<NodeID>> = Vec::new();
        let mut j: usize = 0;
        while j < old_p.len()
            invariant
                0 <= j <= old_p.len(),
                0 <= i < poly@.len(),
                m@ == poly.deep_view()[i as int],
                row.deep_view() == poly_times_mono(old_p.deep_view(), m@, j as int),
            decreases old_p.len() - j,
        {
            let om = &old_p[j];
            proof {
                assert(om@ == old_p.deep_view()[j as int]);
            }
            let mut prod: Vec<NodeID> = Vec::new();
            let mut t: usize = 0;
            while t < om.len()
                invariant
                    0 <= t <= om@.len(),
                    prod@ =~= om@.take(t as int),
                decreases om@.len() - t,
            {
                prod.push(om[t]);
                t += 1;
            }
            proof {
                assert(prod@ =~= om@);
            }
            let mut u: usize = 0;
            while u < m.len()
                invariant
                    0 <= u <= m@.len(),
                    prod@ == add_ids(om@, m@, u as int),
                decreases m@.len() - u,
            {
                let x = m[u];
                let mut seen = false;
                let mut w: usize = 0;
                while w < prod.len()
                    invariant
                        0 <= w <= prod@.len(),
                        seen <==> (exists|q: int| 0 <= q < w && prod@[q] == x),
                    decreases prod@.len() - w,
                {
                    if prod[w] == x {
                        seen = true;
                        proof {
                            assert(prod@[w as int] == x);
                        }
                    }
                    w += 1;
                }
                proof {
                    if seen {
                        assert(prod@.contains(x));
                    } else {
                        assert(!prod@.contains(x));
                    }
                }
                if !seen {
                    prod.push(x);
                }
                u += 1;
            }
            if !contains_id_mono(&row, &prod) {
                row.push(prod);
                proof {
                    assert(row.deep_view() =~~= poly_times_mono(old_p.deep_view(), m@, j + 1));
                }
            }
            j += 1;
        }
        merge_id_polys(&mut r, &row);
        proof {
            assert(r.deep_view() == poly_product(old_p.deep_view(), poly.deep_view(), i + 1));
        }
        i += 1;
    }
    r
}

// --- The context: node-name interning and content bindings ---

/// The first index of `name` in a name table, or -1.
pub open spec fn first_name(names: Seq<Seq<char>>, name: Seq<char>) -> int
    decreases names.len(),
{
    if names.len() == 0 {
        -1
    } else if names[0] == name {
        0
    } else {
        let r = first_name(names.drop_first(), name);
        if r < 0 {
            -1
        } else {
            r + 1
        }
    }
}

pub proof fn lemma_first_name(names: Seq<Seq<char>>, name: Seq<char>)
    ensures
        ({
            let r = first_name(names, name);
            &&& (r == -1 ==> forall|k: int| 0 <= k < names.len() ==> (#[trigger] names[k]) != name)
            &&& (r != -1 ==> 0 <= r < names.len() && names[r] == name && forall|k: int|
                0 <= k < r ==> (#[trigger] names[k]) != name)
        }),
    decreases names.len(),
{
    if names.len() > 0 && names[0] != name {
        let rest = names.drop_first();
        lemma_first_name(rest, name);
        let r2 = first_name(rest, name);
        if r2 == -1 {
            assert forall|k: int| 0 <= k < names.len() implies (#[trigger] names[k]) != name by {
                if k >= 1 {
                    assert(names[k] == rest[k - 1]);
                }
            }
        } else {
            assert(names[r2 + 1] == rest[r2]);
            assert forall|k: int| 0 <= k < r2 + 1 implies (#[trigger] names[k]) != name by {
                if k >= 1 {
                    assert(names[k] == rest[k - 1]);
                }
            }
        }
    }
}

/// The intern table after sharing `name`.
pub open spec fn intern_tbl(nodes: Seq<Seq<char>>, name: Seq<char>) -> Seq<Seq<char>> {
    if first_name(nodes, name) >= 0 {
        nodes
    } else {
        nodes.push(name)
    }
}

/// The id `name` is shared as: its position in the table plus one.
pub open spec fn intern_id(nodes: Seq<Seq<char>>, name: Seq<char>) -> int {
    let j = first_name(nodes, name);
    if j >= 0 {
        j + 1
    } else {
        nodes.len() as int + 1
    }
}

/// View of a context: the intern table and the named content bindings.
#[verifier::ext_equal]
pub struct CtxView {
    pub nodes: Seq<Seq<char>>,
    pub names: Seq<Seq<char>>,
    pub contents: Seq<ContentView>,
}

/// The shared state the compiler works against: a node-name intern table and
/// a set of compiled-content bindings by name.
#[derive(Debug)]
pub struct Context {
    pub(crate) node_names: Vec<String>,
    pub(crate) bound_names: Vec<String>,
    pub(crate) bound: Vec<PartialContent>,
}

impl View for Context {
    type V = CtxView;

    closed spec fn view(&self) -> CtxView {
        CtxView {
            nodes: self.node_names.deep_view(),
            names: self.bound_names.deep_view(),
            contents: Seq::new(self.bound@.len(), |i: int| self.bound@[i]@),
        }
    }
}

impl Context {
    pub open spec fn wf(&self) -> bool {
        self@.names.len() == self@.contents.len()
    }

    pub fn new() -> (r: Context)
        ensures
            r@.nodes == Seq::<Seq<char>>::empty(),
            r@.names == Seq::<Seq<char>>::empty(),
            r@.contents == Seq::<ContentView>::empty(),
            r.wf(),
    {
        let r = Context { node_names: Vec::new(), bound_names: Vec::new(), bound: Vec::new() };
        proof {
            assert(r@.nodes =~~= Seq::<Seq<char>>::empty());
            assert(r@.names =~~= Seq::<Seq<char>>::empty());
            assert(r@.contents =~= Seq::<ContentView>::empty());
        }
        r
    }

    /// Interns `name`: the id of an already-known name, else a fresh id one
    /// past the end of the table.
    pub fn share_node_name(&mut self, name: &str) -> (id: NodeID)
        ensures
            id as int == intern_id(old(self)@.nodes, name@),
            final(self)@.nodes == intern_tbl(old(self)@.nodes, name@),
            final(self)@.names == old(self)@.names,
            final(self)@.contents == old(self)@.contents,
            id >= 1,
    {
        let ghost nv = self@.nodes;
        let key: String = name.to_owned();
        proof {
            lemma_first_name(nv, name@);
        }
        let mut i: usize = 0;
        while i < self.node_names.len()
            invariant
                0 <= i <= self.node_names@.len(),
                nv == self@.nodes,
                nv == old(self)@.nodes,
                key@ == name@,
                self@.names == old(self)@.names,
                self@.contents == old(self)@.contents,
                nv.len() == self.node_names@.len(),
                forall|k: int| 0 <= k < i ==> (#[trigger] nv[k]) != name@,
            decreases self.node_names@.len() - i,
        {
            if self.node_names[i].eq(&key) {
                proof {
                    lemma_first_name(nv, name@);
                    assert(nv[i as int] == name@);
                }
                return i + 1;
            }
            proof {
                assert(nv[i as int] == self.node_names@[i as int]@);
            }
            i += 1;
        }
        proof {
            lemma_first_name(nv, name@);
            assert(first_name(nv, name@) == -1);
        }
        self.node_names.push(name.to_owned());
        proof {
            assert(self@.nodes =~~= intern_tbl(nv, name@));
            assert(self@.names =~~= old(self)@.names);
            assert(self@.contents =~= old(self)@.contents);
        }
        self.node_names.len()
    }

    /// Whether a content object is bound under `name`.
    pub fn has_content(&self, name: &str) -> (r: bool)
        ensures
            r == (first_name(self@.names, name@) >= 0),
    {
        let key: String = name.to_owned();
        proof {
            lemma_first_name(self@.names, name@);
        }
        let mut i: usize = 0;
        while i < self.bound_names.len()
            invariant
                0 <= i <= self.bound_names@.len(),
                key@ == name@,
                forall|k: int| 0 <= k < i ==> (#[trigger] self@.names[k]) != name@,
            decreases self.bound_names@.len() - i,
        {
            if self.bound_names[i].eq(&key) {
                proof {
                    lemma_first_name(self@.names, name@);
                    assert(self@.names[i as int] == name@);
                }
                return true;
            }
            proof {
                assert(self@.names[i as int] == self.bound_names@[i as int]@);
            }
            i += 1;
        }
        proof {
            lemma_first_name(self@.names, name@);
        }
        false
    }

    /// The content bound under `name`, cloned, if any.
    pub fn get_content(&self, name: &str) -> (r: Option<PartialContent>)
        requires
            self.wf(),
        ensures
            ({
                let j = first_name(self@.names, name@);
                match r {
                    Some(c) => j >= 0 && c@ == self@.contents[j],
                    None => j == -1,
                }
            }),
    {
        let key: String = name.to_owned();
        proof {
            lemma_first_name(self@.names, name@);
        }
        let mut i: usize = 0;
        while i < self.bound_names.len()
            invariant
                0 <= i <= self.bound_names@.len(),
                self.wf(),
                key@ == name@,
                self@.names.len() == self.bound_names@.len(),
                forall|k: int| 0 <= k < i ==> (#[trigger] self@.names[k]) != name@,
            decreases self.bound_names@.len() - i,
        {
            if self.bound_names[i].eq(&key) {
                proof {
                    lemma_first_name(self@.names, name@);
                    assert(self@.names[i as int] == name@);
                }
                let c = self.bound[i].clone();
                proof {
                    assert(c@ == self@.contents[i as int]);
                }
                return Some(c);
            }
            proof {
                assert(self@.names[i as int] == self.bound_names@[i as int]@);
            }
            i += 1;
        }
        proof {
            lemma_first_name(self@.names, name@);
        }
        None
    }

    /// Binds `content` under `name`, replacing an earlier binding.
    pub fn add_content(&mut self, name: &str, content: PartialContent)
        requires
            old(self).wf(),
        ensures
            final(self).wf(),
            final(self)@.nodes == old(self)@.nodes,
            ({
                let j = first_name(old(self)@.names, name@);
                if j >= 0 {
                    final(self)@.names == old(self)@.names && final(self)@.contents == old(
                        self,
                    )@.contents.update(j, content@)
                } else {
                    final(self)@.names == old(self)@.names.push(name@) && final(self)@.contents
                        == old(self)@.contents.push(content@)
                }
            }),
    {
        let ghost names0 = self@.names;
        let key: String = name.to_owned();
        proof {
            lemma_first_name(names0, name@);
        }
        let mut i: usize = 0;
        while i < self.bound_names.len()
            invariant
                0 <= i <= self.bound_names@.len(),
                self.wf(),
                self@ == old(self)@,
                key@ == name@,
                names0 == self@.names,
                names0.len() == self.bound_names@.len(),
                forall|k: int| 0 <= k < i ==> (#[trigger] names0[k]) != name@,
            decreases self.bound_names@.len() - i,
        {
            if self.bound_names[i].eq(&key) {
                proof {
                    lemma_first_name(names0, name@);
                    assert(names0[i as int] == name@);
                }
                let _ = self.bound.remove(i);
                self.bound.insert(i, content);
                proof {
                    assert(final(self)@.names =~~= old(self)@.names);
                    assert(final(self)@.contents =~= old(self)@.contents.update(
                        i as int,
                        content@,
                    ));
                }
                return;
            }
            proof {
                assert(names0[i as int] == self.bound_names@[i as int]@);
            }
            i += 1;
        }
        proof {
            lemma_first_name(names0, name@);
            assert(first_name(names0, name@) == -1);
        }
        self.bound_names.push(name.to_owned());
        self.bound.push(content);
        proof {
            assert(final(self)@.names =~~= old(self)@.names.push(name@));
            assert(final(self)@.contents =~= old(self)@.contents.push(content@));
            assert(final(self)@.nodes =~~= old(self)@.nodes);
        }
    }
}

} // verus!
