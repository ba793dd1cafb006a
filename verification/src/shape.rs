use vstd::prelude::*;

verus! {

/// One record of the topology document's `nodes` array: the two caller-named
/// string fields and the numeric `id` field, each absent when the node lacks
/// it or holds it with another type.
pub struct TopoNode {
    pub region: Option<String>,
    pub precinct: Option<String>,
    pub id: Option<u64>,
}

/// A precinct and its flat index in the assignment vector.
pub struct Precinct {
    pub name: String,
    pub id: u64,
}

/// A region and the precincts that belong to it.
pub struct Region {
    pub name: String,
    pub precincts: Vec<Precinct>,
}

/// The two-level mapping from region name to precinct name to flat index,
/// built once from the topology document and read-only thereafter.
pub struct ShapeIndex {
    pub regions: Vec<Region>,
}

impl View for TopoNode {
    type V = (Option<Seq<char>>, Option<Seq<char>>, Option<u64>);

    open spec fn view(&self) -> (Option<Seq<char>>, Option<Seq<char>>, Option<u64>) {
        (self.region.deep_view(), self.precinct.deep_view(), self.id)
    }
}

impl DeepView for TopoNode {
    type V = (Option<Seq<char>>, Option<Seq<char>>, Option<u64>);

    open spec fn deep_view(&self) -> (Option<Seq<char>>, Option<Seq<char>>, Option<u64>) {
        self.view()
    }
}

impl View for Precinct {
    type V = (Seq<char>, u64);

    open spec fn view(&self) -> (Seq<char>, u64) {
        (self.name@, self.id)
    }
}

impl DeepView for Precinct {
    type V = (Seq<char>, u64);

    open spec fn deep_view(&self) -> (Seq<char>, u64) {
        self.view()
    }
}

impl View for Region {
    type V = (Seq<char>, Seq<(Seq<char>, u64)>);

    open spec fn view(&self) -> (Seq<char>, Seq<(Seq<char>, u64)>) {
        (self.name@, self.precincts.deep_view())
    }
}

impl DeepView for Region {
    type V = (Seq<char>, Seq<(Seq<char>, u64)>);

    open spec fn deep_view(&self) -> (Seq<char>, Seq<(Seq<char>, u64)>) {
        self.view()
    }
}

impl View for ShapeIndex {
    type V = Seq<(Seq<char>, Seq<(Seq<char>, u64)>)>;

    open spec fn view(&self) -> Seq<(Seq<char>, Seq<(Seq<char>, u64)>)> {
        self.regions.deep_view()
    }
}

/// The precinct list of the first region named `name`, if any.
pub open spec fn lookup_region(
    ix: Seq<(Seq<char>, Seq<(Seq<char>, u64)>)>,
    name: Seq<char>,
) -> Option<Seq<(Seq<char>, u64)>>
    decreases ix.len(),
{
    if ix.len() == 0 {
        None
    } else if ix[0].0 == name {
        Some(ix[0].1)
    } else {
        lookup_region(ix.skip(1), name)
    }
}

/// The flat index of the first precinct named `name`, if any.
pub open spec fn lookup_precinct(ps: Seq<(Seq<char>, u64)>, name: Seq<char>) -> Option<u64>
    decreases ps.len(),
{
    if ps.len() == 0 {
        None
    } else if ps[0].0 == name {
        Some(ps[0].1)
    } else {
        lookup_precinct(ps.skip(1), name)
    }
}

/// The sum of the per-region precinct counts.
pub open spec fn total_count(ix: Seq<(Seq<char>, Seq<(Seq<char>, u64)>)>) -> nat
    decreases ix.len(),
{
    if ix.len() == 0 {
        0
    } else {
        ix[0].1.len() + total_count(ix.skip(1))
    }
}

/// Region names are pairwise distinct.
pub open spec fn regions_distinct(ix: Seq<(Seq<char>, Seq<(Seq<char>, u64)>)>) -> bool {
    forall|i: int, j: int| 0 <= i < j < ix.len() ==> ix[i].0 != ix[j].0
}

/// Within every region, precinct names are pairwise distinct.
pub open spec fn precincts_distinct(ix: Seq<(Seq<char>, Seq<(Seq<char>, u64)>)>) -> bool {
    forall|r: int, i: int, j: int|
        0 <= r < ix.len() && 0 <= i < j < ix[r].1.len() ==> ix[r].1[i].0 != ix[r].1[j].0
}

/// Well-formedness of a shape index: names are unique on both levels and the
/// total precinct count is representable.
pub open spec fn index_wf(ix: Seq<(Seq<char>, Seq<(Seq<char>, u64)>)>) -> bool {
    regions_distinct(ix) && precincts_distinct(ix) && total_count(ix) <= usize::MAX
}

/// Insertion of a precinct into a region's list: an existing entry of the
/// same name has its index overwritten, a new name is appended.
pub open spec fn insert_precinct(
    ps: Seq<(Seq<char>, u64)>,
    name: Seq<char>,
    id: u64,
) -> Seq<(Seq<char>, u64)>
    decreases ps.len(),
{
    if ps.len() == 0 {
        seq![(name, id)]
    } else if ps[0].0 == name {
        seq![(name, id)] + ps.skip(1)
    } else {
        seq![ps[0]] + insert_precinct(ps.skip(1), name, id)
    }
}

/// Insertion of one (region, precinct) -> id mapping into the index.
pub open spec fn insert_pair(
    ix: Seq<(Seq<char>, Seq<(Seq<char>, u64)>)>,
    reg: Seq<char>,
    prec: Seq<char>,
    id: u64,
) -> Seq<(Seq<char>, Seq<(Seq<char>, u64)>)>
    decreases ix.len(),
{
    if ix.len() == 0 {
        seq![(reg, seq![(prec, id)])]
    } else if ix[0].0 == reg {
        seq![(ix[0].0, insert_precinct(ix[0].1, prec, id))] + ix.skip(1)
    } else {
        seq![ix[0]] + insert_pair(ix.skip(1), reg, prec, id)
    }
}

/// The effect of one topology node on the index: nodes with all three fields
/// present insert their pair, all others are skipped silently.
pub open spec fn index_step(
    ix: Seq<(Seq<char>, Seq<(Seq<char>, u64)>)>,
    n: (Option<Seq<char>>, Option<Seq<char>>, Option<u64>),
) -> Seq<(Seq<char>, Seq<(Seq<char>, u64)>)> {
    match (n.0, n.1, n.2) {
        (Some(reg), Some(prec), Some(id)) => insert_pair(ix, reg, prec, id),
        _ => ix,
    }
}

/// The index after folding the nodes over `ix`, in document order.
pub open spec fn index_from(
    ix: Seq<(Seq<char>, Seq<(Seq<char>, u64)>)>,
    ns: Seq<(Option<Seq<char>>, Option<Seq<char>>, Option<u64>)>,
) -> Seq<(Seq<char>, Seq<(Seq<char>, u64)>)>
    decreases ns.len(),
{
    if ns.len() == 0 {
        ix
    } else {
        index_from(index_step(ix, ns[0]), ns.skip(1))
    }
}

/// The index built from a topology document's nodes.
pub open spec fn index_of_nodes(
    ns: Seq<(Option<Seq<char>>, Option<Seq<char>>, Option<u64>)>,
) -> Seq<(Seq<char>, Seq<(Seq<char>, u64)>)> {
    index_from(Seq::empty(), ns)
}

/// Whether a topology node carries all three required fields.
pub open spec fn node_complete(n: (Option<Seq<char>>, Option<Seq<char>>, Option<u64>)) -> bool {
    n.0 is Some && n.1 is Some && n.2 is Some
}

/// Whether the index holds the (region, precinct) pair.
pub open spec fn contains_pair(
    ix: Seq<(Seq<char>, Seq<(Seq<char>, u64)>)>,
    r: Seq<char>,
    p: Seq<char>,
) -> bool {
    match lookup_region(ix, r) {
        Some(ps) => lookup_precinct(ps, p) is Some,
        None => false,
    }
}

/// The number of complete nodes whose pair the index built so far does not
/// yet hold: each distinct (region, precinct) pair of the document counts
/// exactly once, at its first complete occurrence.
pub open spec fn new_pair_count(
    ix: Seq<(Seq<char>, Seq<(Seq<char>, u64)>)>,
    ns: Seq<(Option<Seq<char>>, Option<Seq<char>>, Option<u64>)>,
) -> nat
    decreases ns.len(),
{
    if ns.len() == 0 {
        0
    } else {
        (if node_complete(ns[0]) && !contains_pair(ix, ns[0].0->Some_0, ns[0].1->Some_0) {
            1nat
        } else {
            0nat
        }) + new_pair_count(index_step(ix, ns[0]), ns.skip(1))
    }
}

/// Precinct insertion grows the list exactly when the name is new.
pub proof fn lemma_insert_precinct_len(ps: Seq<(Seq<char>, u64)>, p: Seq<char>, id: u64)
    ensures
        lookup_precinct(ps, p) is Some ==> insert_precinct(ps, p, id).len() == ps.len(),
        lookup_precinct(ps, p) is None ==> insert_precinct(ps, p, id).len() == ps.len() + 1,
    decreases ps.len(),
{
    if ps.len() == 0 {
    } else if ps[0].0 == p {
        assert((seq![(p, id)] + ps.skip(1)).len() == 1 + ps.skip(1).len());
    } else {
        lemma_insert_precinct_len(ps.skip(1), p, id);
    }
}

/// Pair insertion grows the total count exactly when the pair is new.
pub proof fn lemma_insert_pair_total(
    ix: Seq<(Seq<char>, Seq<(Seq<char>, u64)>)>,
    r: Seq<char>,
    p: Seq<char>,
    id: u64,
)
    ensures
        contains_pair(ix, r, p) ==> total_count(insert_pair(ix, r, p, id)) == total_count(ix),
        !contains_pair(ix, r, p) ==> total_count(insert_pair(ix, r, p, id)) == total_count(ix)
            + 1,
    decreases ix.len(),
{
    if ix.len() == 0 {
        let s = insert_pair(ix, r, p, id);
        assert(s[0] == (r, seq![(p, id)]));
        assert(s.skip(1) =~= Seq::<(Seq<char>, Seq<(Seq<char>, u64)>)>::empty());
        assert(total_count(Seq::<(Seq<char>, Seq<(Seq<char>, u64)>)>::empty()) == 0);
        assert(seq![(p, id)].len() == 1);
    } else if ix[0].0 == r {
        lemma_insert_precinct_len(ix[0].1, p, id);
        let s = insert_pair(ix, r, p, id);
        assert(s[0] == (ix[0].0, insert_precinct(ix[0].1, p, id)));
        assert(s.skip(1) =~= ix.skip(1));
        assert(total_count(s) == insert_precinct(ix[0].1, p, id).len() + total_count(ix.skip(1)));
    } else {
        lemma_insert_pair_total(ix.skip(1), r, p, id);
        let s = insert_pair(ix, r, p, id);
        assert(s[0] == ix[0]);
        assert(s.skip(1) =~= insert_pair(ix.skip(1), r, p, id));
        assert(total_count(s) == ix[0].1.len() + total_count(insert_pair(ix.skip(1), r, p, id)));
    }
}

/// Folding nodes over an index adds exactly the first occurrences of pairs
/// the index does not yet hold.
pub proof fn lemma_total_from(
    ix: Seq<(Seq<char>, Seq<(Seq<char>, u64)>)>,
    ns: Seq<(Option<Seq<char>>, Option<Seq<char>>, Option<u64>)>,
)
    ensures
        total_count(index_from(ix, ns)) == total_count(ix) + new_pair_count(ix, ns),
    decreases ns.len(),
{
    if ns.len() > 0 {
        let ix2 = index_step(ix, ns[0]);
        lemma_total_from(ix2, ns.skip(1));
        if node_complete(ns[0]) {
            lemma_insert_pair_total(ix, ns[0].0->Some_0, ns[0].1->Some_0, ns[0].2->Some_0);
        }
    }
}

/// The total precinct count of the built index equals the number of
/// distinct (region, precinct) pairs among nodes carrying all three
/// required fields: each such pair is counted once, at its first complete
/// occurrence.
pub proof fn lemma_total_counts_distinct_pairs(
    ns: Seq<(Option<Seq<char>>, Option<Seq<char>>, Option<u64>)>,
)
    ensures
        total_count(index_of_nodes(ns)) == new_pair_count(Seq::empty(), ns),
{
    lemma_total_from(Seq::empty(), ns);
    assert(total_count(Seq::<(Seq<char>, Seq<(Seq<char>, u64)>)>::empty()) == 0);
}

/// Precinct insertion makes a name found exactly when it was found before
/// or is the inserted one.
pub proof fn lemma_lookup_precinct_insert(
    ps: Seq<(Seq<char>, u64)>,
    p: Seq<char>,
    id: u64,
    p2: Seq<char>,
)
    ensures
        lookup_precinct(insert_precinct(ps, p, id), p2) is Some <==> (lookup_precinct(ps, p2)
            is Some || p2 == p),
    decreases ps.len(),
{
    assert(lookup_precinct(Seq::<(Seq<char>, u64)>::empty(), p2) is None);
    if ps.len() == 0 {
        let s = insert_precinct(ps, p, id);
        assert(s[0] == (p, id));
        assert(s.skip(1) =~= Seq::<(Seq<char>, u64)>::empty());
        assert(lookup_precinct(s.skip(1), p2) is None);
    } else if ps[0].0 == p {
        let s = insert_precinct(ps, p, id);
        assert(s[0] == (p, id));
        assert(s.skip(1) =~= ps.skip(1));
        if p2 != p {
            assert(lookup_precinct(s, p2) == lookup_precinct(ps.skip(1), p2));
        }
    } else {
        lemma_lookup_precinct_insert(ps.skip(1), p, id, p2);
        let s = insert_precinct(ps, p, id);
        assert(s[0] == ps[0]);
        assert(s.skip(1) =~= insert_precinct(ps.skip(1), p, id));
    }
}

/// Pair insertion makes a pair found exactly when it was found before or is
/// the inserted one.
pub proof fn lemma_contains_pair_insert(
    ix: Seq<(Seq<char>, Seq<(Seq<char>, u64)>)>,
    r: Seq<char>,
    p: Seq<char>,
    id: u64,
    r2: Seq<char>,
    p2: Seq<char>,
)
    ensures
        contains_pair(insert_pair(ix, r, p, id), r2, p2) <==> (contains_pair(ix, r2, p2) || (r2
            == r && p2 == p)),
    decreases ix.len(),
{
    assert(lookup_region(Seq::<(Seq<char>, Seq<(Seq<char>, u64)>)>::empty(), r2) is None);
    if ix.len() == 0 {
        let s = insert_pair(ix, r, p, id);
        assert(s[0] == (r, seq![(p, id)]));
        assert(s.skip(1) =~= Seq::<(Seq<char>, Seq<(Seq<char>, u64)>)>::empty());
        assert(lookup_region(s.skip(1), r2) is None);
        if r2 == r {
            assert(lookup_region(s, r2) == Some(seq![(p, id)]));
            assert(seq![(p, id)][0] == (p, id));
            assert(seq![(p, id)].skip(1) =~= Seq::<(Seq<char>, u64)>::empty());
            assert(lookup_precinct(Seq::<(Seq<char>, u64)>::empty(), p2) is None);
        }
    } else if ix[0].0 == r {
        let s = insert_pair(ix, r, p, id);
        assert(s[0] == (ix[0].0, insert_precinct(ix[0].1, p, id)));
        assert(s.skip(1) =~= ix.skip(1));
        if r2 == r {
            lemma_lookup_precinct_insert(ix[0].1, p, id, p2);
        } else {
            assert(lookup_region(s, r2) == lookup_region(ix.skip(1), r2));
            assert(lookup_region(ix, r2) == lookup_region(ix.skip(1), r2));
        }
    } else {
        lemma_contains_pair_insert(ix.skip(1), r, p, id, r2, p2);
        let s = insert_pair(ix, r, p, id);
        assert(s[0] == ix[0]);
        assert(s.skip(1) =~= insert_pair(ix.skip(1), r, p, id));
        if r2 == ix[0].0 {
            assert(lookup_region(s, r2) == Some(ix[0].1));
            assert(lookup_region(ix, r2) == Some(ix[0].1));
        }
    }
}

/// The built index holds exactly the pairs of the document's complete
/// nodes.
pub proof fn lemma_pairs_from(
    ix: Seq<(Seq<char>, Seq<(Seq<char>, u64)>)>,
    ns: Seq<(Option<Seq<char>>, Option<Seq<char>>, Option<u64>)>,
    r2: Seq<char>,
    p2: Seq<char>,
)
    ensures
        contains_pair(index_from(ix, ns), r2, p2) <==> (contains_pair(ix, r2, p2) || exists|i: int|
            0 <= i < ns.len() && node_complete(#[trigger] ns[i]) && ns[i].0 == Some(r2) && ns[i].1
                == Some(p2)),
    decreases ns.len(),
{
    if ns.len() > 0 {
        let ix2 = index_step(ix, ns[0]);
        lemma_pairs_from(ix2, ns.skip(1), r2, p2);
        if node_complete(ns[0]) {
            lemma_contains_pair_insert(
                ix,
                ns[0].0->Some_0,
                ns[0].1->Some_0,
                ns[0].2->Some_0,
                r2,
                p2,
            );
        }
        assert forall|i: int|
            0 <= i < ns.skip(1).len() && node_complete(#[trigger] ns.skip(1)[i]) && ns.skip(
                1,
            )[i].0 == Some(r2) && ns.skip(1)[i].1 == Some(p2) implies exists|i2: int|
            0 <= i2 < ns.len() && node_complete(#[trigger] ns[i2]) && ns[i2].0 == Some(r2)
                && ns[i2].1 == Some(p2) by {
            assert(ns.skip(1)[i] == ns[i + 1]);
        }
        if exists|i: int|
            0 <= i < ns.len() && node_complete(#[trigger] ns[i]) && ns[i].0 == Some(r2) && ns[i].1
                == Some(p2) {
            let w = choose|i: int|
                0 <= i < ns.len() && node_complete(#[trigger] ns[i]) && ns[i].0 == Some(r2)
                    && ns[i].1 == Some(p2);
            if w > 0 {
                assert(ns.skip(1)[w - 1] == ns[w]);
            }
        }
    }
}

/// The index built from a document holds a (region, precinct) pair exactly
/// when some node carries it with all three required fields present.
pub proof fn lemma_index_holds_pairs(
    ns: Seq<(Option<Seq<char>>, Option<Seq<char>>, Option<u64>)>,
    r: Seq<char>,
    p: Seq<char>,
)
    ensures
        contains_pair(index_of_nodes(ns), r, p) <==> exists|i: int|
            0 <= i < ns.len() && node_complete(#[trigger] ns[i]) && ns[i].0 == Some(r) && ns[i].1
                == Some(p),
{
    lemma_pairs_from(Seq::empty(), ns, r, p);
    assert(lookup_region(Seq::<(Seq<char>, Seq<(Seq<char>, u64)>)>::empty(), r) is None);
}

/// A first-match scan position determines the region lookup.
pub proof fn lemma_lookup_region_at(
    ix: Seq<(Seq<char>, Seq<(Seq<char>, u64)>)>,
    name: Seq<char>,
    k: int,
)
    requires
        0 <= k < ix.len(),
        ix[k].0 == name,
        forall|j: int| 0 <= j < k ==> ix[j].0 != name,
    ensures
        lookup_region(ix, name) == Some(ix[k].1),
    decreases k,
{
    if k > 0 {
        lemma_lookup_region_at(ix.skip(1), name, k - 1);
    }
}

/// A full scan without a match determines the region lookup.
pub proof fn lemma_lookup_region_missing(
    ix: Seq<(Seq<char>, Seq<(Seq<char>, u64)>)>,
    name: Seq<char>,
)
    requires
        forall|j: int| 0 <= j < ix.len() ==> ix[j].0 != name,
    ensures
        lookup_region(ix, name) is None,
    decreases ix.len(),
{
    if ix.len() > 0 {
        lemma_lookup_region_missing(ix.skip(1), name);
    }
}

/// A first-match scan position determines the precinct lookup.
pub proof fn lemma_lookup_precinct_at(ps: Seq<(Seq<char>, u64)>, name: Seq<char>, t: int)
    requires
        0 <= t < ps.len(),
        ps[t].0 == name,
        forall|j: int| 0 <= j < t ==> ps[j].0 != name,
    ensures
        lookup_precinct(ps, name) == Some(ps[t].1),
    decreases t,
{
    if t > 0 {
        lemma_lookup_precinct_at(ps.skip(1), name, t - 1);
    }
}

/// A full scan without a match determines the precinct lookup.
pub proof fn lemma_lookup_precinct_missing(ps: Seq<(Seq<char>, u64)>, name: Seq<char>)
    requires
        forall|j: int| 0 <= j < ps.len() ==> ps[j].0 != name,
    ensures
        lookup_precinct(ps, name) is None,
    decreases ps.len(),
{
    if ps.len() > 0 {
        lemma_lookup_precinct_missing(ps.skip(1), name);
    }
}

/// The total count splits at any cut point.
pub proof fn lemma_total_split(ix: Seq<(Seq<char>, Seq<(Seq<char>, u64)>)>, i: int)
    requires
        0 <= i <= ix.len(),
    ensures
        total_count(ix) == total_count(ix.take(i)) + total_count(ix.skip(i)),
    decreases i,
{
    if i == 0 {
        assert(ix.take(0) =~= Seq::empty());
        assert(ix.skip(0) =~= ix);
    } else {
        lemma_total_split(ix.skip(1), i - 1);
        assert(ix.take(i).len() > 0);
        assert(ix.take(i)[0] == ix[0]);
        assert(ix.take(i).skip(1) =~= ix.skip(1).take(i - 1));
        assert(ix.skip(i) =~= ix.skip(1).skip(i - 1));
        assert(total_count(ix.take(i)) == ix[0].1.len() + total_count(ix.skip(1).take(i - 1)));
    }
}

/// Inserting where the first match stands at `k` updates that slot in place.
pub proof fn lemma_insert_precinct_at(ps: Seq<(Seq<char>, u64)>, name: Seq<char>, id: u64, k: int)
    requires
        0 <= k < ps.len(),
        ps[k].0 == name,
        forall|j: int| 0 <= j < k ==> ps[j].0 != name,
    ensures
        insert_precinct(ps, name, id) =~= ps.update(k, (name, id)),
    decreases k,
{
    if k == 0 {
    } else {
        lemma_insert_precinct_at(ps.skip(1), name, id, k - 1);
        assert(ps.skip(1).update(k - 1, (name, id)) =~= ps.update(k, (name, id)).skip(1));
    }
}

/// Inserting an unknown precinct name appends it.
pub proof fn lemma_insert_precinct_missing(ps: Seq<(Seq<char>, u64)>, name: Seq<char>, id: u64)
    requires
        forall|j: int| 0 <= j < ps.len() ==> ps[j].0 != name,
    ensures
        insert_precinct(ps, name, id) =~= ps.push((name, id)),
    decreases ps.len(),
{
    if ps.len() == 0 {
    } else {
        lemma_insert_precinct_missing(ps.skip(1), name, id);
        assert(ps.skip(1).push((name, id)) =~= ps.push((name, id)).skip(1));
    }
}

/// Inserting a pair whose region's first match stands at `k` rewrites that
/// region's precinct list and nothing else.
pub proof fn lemma_insert_pair_at(
    ix: Seq<(Seq<char>, Seq<(Seq<char>, u64)>)>,
    reg: Seq<char>,
    prec: Seq<char>,
    id: u64,
    k: int,
)
    requires
        0 <= k < ix.len(),
        ix[k].0 == reg,
        forall|j: int| 0 <= j < k ==> ix[j].0 != reg,
    ensures
        insert_pair(ix, reg, prec, id) =~= ix.update(
            k,
            (reg, insert_precinct(ix[k].1, prec, id)),
        ),
    decreases k,
{
    if k == 0 {
    } else {
        lemma_insert_pair_at(ix.skip(1), reg, prec, id, k - 1);
        assert(ix.skip(1).update(k - 1, (reg, insert_precinct(ix[k].1, prec, id))) =~= ix.update(
            k,
            (reg, insert_precinct(ix[k].1, prec, id)),
        ).skip(1));
    }
}

/// Inserting a pair with an unknown region name appends a fresh region.
pub proof fn lemma_insert_pair_missing(
    ix: Seq<(Seq<char>, Seq<(Seq<char>, u64)>)>,
    reg: Seq<char>,
    prec: Seq<char>,
    id: u64,
)
    requires
        forall|j: int| 0 <= j < ix.len() ==> ix[j].0 != reg,
    ensures
        insert_pair(ix, reg, prec, id) =~= ix.push((reg, seq![(prec, id)])),
    decreases ix.len(),
{
    if ix.len() == 0 {
    } else {
        lemma_insert_pair_missing(ix.skip(1), reg, prec, id);
        assert(ix.skip(1).push((reg, seq![(prec, id)])) =~= ix.push(
            (reg, seq![(prec, id)]),
        ).skip(1));
    }
}

/// The total count after appending a region.
pub proof fn lemma_total_push(
    ix: Seq<(Seq<char>, Seq<(Seq<char>, u64)>)>,
    e: (Seq<char>, Seq<(Seq<char>, u64)>),
)
    ensures
        total_count(ix.push(e)) == total_count(ix) + e.1.len(),
    decreases ix.len(),
{
    assert(ix.push(e)[0] == if ix.len() == 0 { e } else { ix[0] });
    if ix.len() == 0 {
        assert(ix.push(e).skip(1) =~= Seq::<(Seq<char>, Seq<(Seq<char>, u64)>)>::empty());
        assert(total_count(Seq::<(Seq<char>, Seq<(Seq<char>, u64)>)>::empty()) == 0);
    } else {
        lemma_total_push(ix.skip(1), e);
        assert(ix.push(e).skip(1) =~= ix.skip(1).push(e));
    }
}

/// The total count after replacing one region's precinct list.
pub proof fn lemma_total_update(
    ix: Seq<(Seq<char>, Seq<(Seq<char>, u64)>)>,
    k: int,
    e: (Seq<char>, Seq<(Seq<char>, u64)>),
)
    requires
        0 <= k < ix.len(),
    ensures
        total_count(ix.update(k, e)) == total_count(ix) - ix[k].1.len() + e.1.len(),
    decreases k,
{
    if k == 0 {
        assert(ix.update(0, e).skip(1) =~= ix.skip(1));
    } else {
        lemma_total_update(ix.skip(1), k - 1, e);
        assert(ix.update(k, e).skip(1) =~= ix.skip(1).update(k - 1, e));
        assert(ix.update(k, e)[0] == ix[0]);
    }
}

impl ShapeIndex {
    /// The index of the first region named `name`, if any.
    pub fn find_region(&self, name: &String) -> (r: Option<usize>)
        ensures
            match r {
                Some(k) => k < self@.len() && self@[k as int].0 == name@ && (forall|j: int|
                    0 <= j < k ==> self@[j].0 != name@),
                None => forall|j: int| 0 <= j < self@.len() ==> self@[j].0 != name@,
            },
    {
        let mut k: usize = 0;
        while k < self.regions.len()
            invariant
                k <= self@.len(),
                self@.len() == self.regions@.len(),
                forall|j: int| 0 <= j < k ==> self@[j].0 != name@,
            decreases self.regions.len() - k,
        {
            proof {
                assert(self@[k as int].0 == self.regions@[k as int].name@);
            }
            if self.regions[k].name == *name {
                return Some(k);
            }
            k = k + 1;
        }
        None
    }

    /// Inserts one (region, precinct) -> flat index mapping, overwriting the
    /// index of an existing pair and appending new names on either level.
    fn upsert(&mut self, reg: &String, prec: &String, id: u64)
        ensures
            final(self)@ == insert_pair(old(self)@, reg@, prec@, id),
            regions_distinct(old(self)@) ==> regions_distinct(final(self)@),
            precincts_distinct(old(self)@) ==> precincts_distinct(final(self)@),
            total_count(final(self)@) <= total_count(old(self)@) + 1,
    {
        let ghost prev = self@;
        match self.find_region(reg) {
            None => {
                let mut ps: Vec<Precinct> = Vec::new();
                ps.push(Precinct { name: prec.clone(), id });
                proof {
                    assert(ps.deep_view() =~= seq![(prec@, id)]);
                }
                self.regions.push(Region { name: reg.clone(), precincts: ps });
                proof {
                    lemma_insert_pair_missing(prev, reg@, prec@, id);
                    assert(self@ =~~= prev.push((reg@, seq![(prec@, id)])));
                    lemma_total_push(prev, (reg@, seq![(prec@, id)]));
                }
            },
            Some(k) => {
                let ghost ops = prev[k as int].1;
                match find_precinct(&self.regions[k].precincts, prec) {
                    None => {
                        self.regions[k].precincts.push(Precinct { name: prec.clone(), id });
                        proof {
                            lemma_insert_precinct_missing(ops, prec@, id);
                            lemma_insert_pair_at(prev, reg@, prec@, id, k as int);
                            assert(self@ =~~= prev.update(
                                k as int,
                                (reg@, ops.push((prec@, id))),
                            ));
                            lemma_total_update(prev, k as int, (reg@, ops.push((prec@, id))));
                        }
                    },
                    Some(t) => {
                        self.regions[k].precincts[t] = Precinct { name: prec.clone(), id };
                        proof {
                            lemma_insert_precinct_at(ops, prec@, id, t as int);
                            lemma_insert_pair_at(prev, reg@, prec@, id, k as int);
                            assert(self@ =~~= prev.update(
                                k as int,
                                (reg@, ops.update(t as int, (prec@, id))),
                            ));
                            lemma_total_update(
                                prev,
                                k as int,
                                (reg@, ops.update(t as int, (prec@, id))),
                            );
                        }
                    },
                }
            },
        }
    }

    /// Builds the index from the topology document's nodes, in document
    /// order; nodes missing any required field are skipped silently.
    pub fn from_nodes(nodes: &Vec<TopoNode>) -> (r: ShapeIndex)
        ensures
            r@ == index_of_nodes(nodes.deep_view()),
            index_wf(r@),
            total_count(r@) <= nodes@.len(),
    {
        let mut ix = ShapeIndex { regions: Vec::new() };
        proof {
            assert(ix@ =~= Seq::<(Seq<char>, Seq<(Seq<char>, u64)>)>::empty());
            assert(total_count(ix@) == 0);
            assert(nodes.deep_view().skip(0) =~= nodes.deep_view());
        }
        let mut i: usize = 0;
        while i < nodes.len()
            invariant
                i <= nodes@.len(),
                nodes.deep_view().len() == nodes@.len(),
                index_from(ix@, nodes.deep_view().skip(i as int)) == index_of_nodes(
                    nodes.deep_view(),
                ),
                regions_distinct(ix@),
                precincts_distinct(ix@),
                total_count(ix@) <= i,
            decreases nodes@.len() - i,
        {
            let ghost rest = nodes.deep_view().skip(i as int);
            let ghost prev = ix@;
            proof {
                assert(rest[0] == nodes.deep_view()[i as int]);
                assert(nodes.deep_view()[i as int] == nodes@[i as int].deep_view());
                assert(rest.skip(1) =~= nodes.deep_view().skip(i + 1));
            }
            let node = &nodes[i];
            if node.region.is_some() && node.precinct.is_some() && node.id.is_some() {
                let reg = node.region.as_ref().unwrap();
                let prec = node.precinct.as_ref().unwrap();
                let idv: u64 = *node.id.as_ref().unwrap();
                ix.upsert(reg, prec, idv);
                proof {
                    assert(node@.0 == Some(reg@));
                    assert(node@.1 == Some(prec@));
                    assert(node@.2 == Some(idv));
                    assert(index_step(prev, rest[0]) == insert_pair(prev, reg@, prec@, idv));
                }
            } else {
                proof {
                    assert(index_step(prev, rest[0]) == prev);
                }
            }
            i = i + 1;
        }
        proof {
            assert(nodes.deep_view().skip(i as int) =~= Seq::<
                (Option<Seq<char>>, Option<Seq<char>>, Option<u64>),
            >::empty());
        }
        ix
    }

    /// The sum of the per-region precinct counts: the length of every
    /// assignment vector and the exclusive bound of the flat indices a
    /// well-formed document uses.
    pub fn total_precinct_count(&self) -> (n: usize)
        requires
            total_count(self@) <= usize::MAX,
        ensures
            n == total_count(self@),
    {
        let mut n: usize = 0;
        let mut k: usize = 0;
        proof {
            assert(self@.take(0) =~= Seq::empty());
        }
        while k < self.regions.len()
            invariant
                k <= self@.len(),
                self@.len() == self.regions@.len(),
                total_count(self@) <= usize::MAX,
                n == total_count(self@.take(k as int)),
            decreases self.regions.len() - k,
        {
            proof {
                lemma_total_split(self@, k as int);
                lemma_total_split(self@, k + 1);
                assert(self@.take(k + 1).take(k as int) =~= self@.take(k as int));
                lemma_total_split(self@.take(k + 1), k as int);
                assert(self@.take(k + 1).skip(k as int) =~= seq![self@[k as int]]);
                assert(seq![self@[k as int]].skip(1) =~= Seq::<
                    (Seq<char>, Seq<(Seq<char>, u64)>),
                >::empty());
                assert(total_count(Seq::<(Seq<char>, Seq<(Seq<char>, u64)>)>::empty()) == 0);
                assert(seq![self@[k as int]][0] == self@[k as int]);
                assert(total_count(seq![self@[k as int]]) == self@[k as int].1.len());
                assert(self@[k as int].1 == self.regions@[k as int].precincts.deep_view());
            }
            n = n + self.regions[k].precincts.len();
            k = k + 1;
        }
        proof {
            assert(self@.take(k as int) =~= self@);
        }
        n
    }
}

/// The index of the first precinct named `name` in the list, if any.
pub fn find_precinct(ps: &Vec<Precinct>, name: &String) -> (r: Option<usize>)
    ensures
        match r {
            Some(t) => t < ps.deep_view().len() && ps.deep_view()[t as int].0 == name@ && (
            forall|j: int| 0 <= j < t ==> ps.deep_view()[j].0 != name@),
            None => forall|j: int| 0 <= j < ps.deep_view().len() ==> ps.deep_view()[j].0 != name@,
        },
{
    let mut t: usize = 0;
    while t < ps.len()
        invariant
            t <= ps@.len(),
            ps.deep_view().len() == ps@.len(),
            forall|j: int| 0 <= j < t ==> ps.deep_view()[j].0 != name@,
        decreases ps.len() - t,
    {
        proof {
            assert(ps.deep_view()[t as int].0 == ps@[t as int].name@);
        }
        if ps[t].name == *name {
            return Some(t);
        }
        t = t + 1;
    }
    None
}

/// What serde_json parsing of a topology document yields, as plain values:
/// nothing when the text is not valid JSON, else one record per element of
/// the top-level `nodes` array (the empty sequence when that array is
/// absent), each holding the node's two caller-named string fields and its
/// numeric `id` field where present.
pub uninterp spec fn topology_nodes_of(
    text: Seq<char>,
    region: Seq<char>,
    precinct: Seq<char>,
) -> Option<Seq<(Option<Seq<char>>, Option<Seq<char>>, Option<u64>)>>;

/// The plain-value shape of a parsed node list.
pub open spec fn nodes_opt_view(r: &Option<Vec<TopoNode>>) -> Option<
    Seq<(Option<Seq<char>>, Option<Seq<char>>, Option<u64>)>,
> {
    match r {
        None => None,
        Some(v) => Some(v.deep_view()),
    }
}

/// Relies on serde_json::from_str and the Value accessors get, as_array,
/// as_str and as_u64: returns nothing when the text is not valid JSON, the
/// empty node list when the top-level `nodes` array is absent, and otherwise
/// one record per array element with the caller-named string fields and the
/// numeric `id` field, each field absent when missing or of another type.
#[verifier::external_body]
fn parse_topology(text: &str, region: &str, precinct: &str) -> (r: Option<Vec<TopoNode>>)
    ensures
        nodes_opt_view(&r) == topology_nodes_of(text@, region@, precinct@),
{
    let data: serde_json::Value = match serde_json::from_str(text) {
        Ok(v) => v,
        Err(_) => return None,
    };
    let nodes = match data.get("nodes").and_then(|n| n.as_array()) {
        Some(a) => a,
        None => return Some(Vec::new()),
    };
    Some(nodes.iter().map(|n| TopoNode {
        region: n.get(region).and_then(|f| f.as_str()).map(|s| s.to_string()),
        precinct: n.get(precinct).and_then(|f| f.as_str()).map(|s| s.to_string()),
        id: n.get("id").and_then(|f| f.as_u64()),
    }).collect())
}

/// Parses a topology document and builds its shape index. `region` and
/// `precinct` name the node fields that act as region and precinct name.
/// Returns nothing exactly when the document is not valid JSON; a document
/// without a `nodes` array yields the empty index.
pub fn read_shape(text: &str, region: &str, precinct: &str) -> (r: Option<ShapeIndex>)
    ensures
        match r {
            Some(ix) => topology_nodes_of(text@, region@, precinct@) matches Some(ns)
                && ix@ == index_of_nodes(ns) && index_wf(ix@),
            None => topology_nodes_of(text@, region@, precinct@) is None,
        },
{
    match parse_topology(text, region, precinct) {
        None => None,
        Some(nodes) => Some(ShapeIndex::from_nodes(&nodes)),
    }
}

} // verus!
