//! Gene sets: definitions by gene symbol, and sets resolved to row ids.
use vstd::prelude::*;

verus! {

/// A named gene set as defined by symbols.
#[derive(Debug, Clone)]
pub struct GenesetDef {
    pub id: String,
    pub axis: char,
    pub genes: Vec<String>,
}

/// A collection of definitions and, once resolved, their row ids.
#[derive(Debug, Clone)]
pub struct GenesetCollection {
    pub version: String,
    pub defs: Vec<GenesetDef>,
    pub resolved: Vec<ResolvedGeneset>,
}

/// A gene set resolved against the store's gene names.
#[derive(Debug, Clone)]
pub struct ResolvedGeneset {
    pub id: String,
    pub axis: char,
    /// Row ids, ascending and without repeats.
    pub gene_ids: Vec<usize>,
    /// Symbols with no row.
    pub missing: Vec<String>,
    /// Number of symbols in the definition.
    pub total: usize,
}

impl ResolvedGeneset {
    /// Row ids are strictly ascending.
    pub open spec fn wf(&self) -> bool {
        forall|i: int|
            0 <= i < self.gene_ids@.len() - 1 ==> #[trigger] self.gene_ids@[i] < self.gene_ids@[i
                + 1]
    }
}

/// The first row whose gene name is `symbol`: duplicate names keep their
/// first row.
pub open spec fn first_row(genes: Seq<Seq<char>>, symbol: Seq<char>) -> Option<int>
    decreases genes.len(),
{
    if genes.len() == 0 {
        None
    } else {
        match first_row(genes.drop_last(), symbol) {
            Some(i) => Some(i),
            None => if genes.last() == symbol {
                Some(genes.len() - 1)
            } else {
                None
            },
        }
    }
}

/// The symbols that name no row, in definition order.
pub open spec fn missing_of(genes: Seq<Seq<char>>, symbols: Seq<Seq<char>>) -> Seq<Seq<char>>
    decreases symbols.len(),
{
    if symbols.len() == 0 {
        Seq::empty()
    } else {
        missing_of(genes, symbols.drop_last()) + if first_row(genes, symbols.last()) is None {
            seq![symbols.last()]
        } else {
            Seq::empty()
        }
    }
}

pub open spec fn names_of(v: Seq<String>) -> Seq<Seq<char>> {
    v.map_values(|s: String| s@)
}

/// `r` is what resolving `def` against the row names `genes` gives: the
/// distinct rows of its symbols in ascending order, the symbols with no row,
/// and the number of symbols.
pub open spec fn is_resolution(def: GenesetDef, genes: Seq<Seq<char>>, r: ResolvedGeneset) -> bool {
    &&& r.id@ == def.id@
    &&& r.axis == def.axis
    &&& r.total == def.genes@.len()
    &&& r.wf()
    &&& forall|x: usize|
        r.gene_ids@.contains(x) <==> exists|i: int|
            0 <= i < def.genes@.len() && first_row(genes, #[trigger] def.genes@[i]@) == Some(
                x as int,
            )
    &&& names_of(r.missing@) == missing_of(genes, names_of(def.genes@))
}

/// The first row named `symbol`.
pub fn find_row(genes: &[String], symbol: &String) -> (r: Option<usize>)
    ensures
        r matches Some(i) ==> first_row(names_of(genes@), symbol@) == Some(i as int),
        r is None ==> first_row(names_of(genes@), symbol@) is None,
{
    let ghost names = names_of(genes@);
    let mut i: usize = 0;
    while i < genes.len()
        invariant
            i <= genes@.len(),
            names == names_of(genes@),
            first_row(names.subrange(0, i as int), symbol@) is None,
        decreases genes.len() - i,
    {
        let ghost pre = names.subrange(0, i + 1);
        assert(pre.drop_last() =~= names.subrange(0, i as int));
        if genes[i] == *symbol {
            proof {
                lemma_first_row_prefix(names, i + 1, symbol@);
            }
            return Some(i);
        }
        i += 1;
    }
    assert(names.subrange(0, genes@.len() as int) =~= names);
    None
}

/// A row found in a prefix is the row found in the whole.
proof fn lemma_first_row_prefix(names: Seq<Seq<char>>, n: int, symbol: Seq<char>)
    requires
        0 <= n <= names.len(),
        first_row(names.subrange(0, n), symbol) is Some,
    ensures
        first_row(names, symbol) == first_row(names.subrange(0, n), symbol),
    decreases names.len() - n,
{
    if n < names.len() {
        let p = names.subrange(0, n + 1);
        assert(p.drop_last() =~= names.subrange(0, n));
        lemma_first_row_prefix(names, n + 1, symbol);
    } else {
        assert(names.subrange(0, n) =~= names);
    }
}

/// Puts `x` into a strictly ascending vector unless it is there already.
#[verifier::spinoff_prover]
fn insert_sorted(ids: &mut Vec<usize>, x: usize)
    requires
        forall|i: int| 0 <= i < old(ids)@.len() - 1 ==> #[trigger] old(ids)@[i] < old(ids)@[i + 1],
    ensures
        forall|i: int|
            0 <= i < final(ids)@.len() - 1 ==> #[trigger] final(ids)@[i] < final(ids)@[i + 1],
        forall|y: usize| final(ids)@.contains(y) <==> (old(ids)@.contains(y) || y == x),
{
    let ghost old_ids = ids@;
    proof {
        lemma_strict(old_ids);
    }
    let mut pos: usize = 0;
    while pos < ids.len() && ids[pos] < x
        invariant
            ids@ == old_ids,
            pos <= ids@.len(),
            forall|i: int| 0 <= i < pos ==> #[trigger] ids@[i] < x,
        decreases ids.len() - pos,
    {
        pos += 1;
    }
    if pos < ids.len() && ids[pos] == x {
        proof {
            assert(ids@[pos as int] == x);
        }
        return;
    }
    ids.insert(pos, x);
    proof {
        old_ids.insert_ensures(pos as int, x);
        let n = ids@;
        assert(n == old_ids.insert(pos as int, x));
        assert forall|i: int| 0 <= i < n.len() - 1 implies #[trigger] n[i] < n[i + 1] by {
            if i + 1 < pos {
                assert(n[i] == old_ids[i] && n[i + 1] == old_ids[i + 1]);
            } else if i + 1 == pos {
                assert(n[i] == old_ids[i]);
            } else {
                assert(n[i + 1] == old_ids[i]);
                if i > pos {
                    assert(n[(i - 1) + 1] == old_ids[i - 1]);
                }
            }
        }
        assert forall|y: usize| n.contains(y) implies (old_ids.contains(y) || y == x) by {
            let k = choose|k: int| 0 <= k < n.len() && n[k] == y;
            if k < pos {
                assert(old_ids[k] == y);
            } else if k > pos {
                assert(n[(k - 1) + 1] == old_ids[k - 1]);
            }
        }
        assert forall|y: usize| (old_ids.contains(y) || y == x) implies n.contains(y) by {
            if y == x {
                assert(n[pos as int] == x);
            } else {
                let k = choose|k: int| 0 <= k < old_ids.len() && old_ids[k] == y;
                if k < pos {
                    assert(n[k] == y);
                } else {
                    assert(n[k + 1] == y);
                }
            }
        }
    }
}

/// Adjacent order gives order between any two positions.
pub proof fn lemma_strict(ids: Seq<usize>)
    requires
        forall|i: int| 0 <= i < ids.len() - 1 ==> #[trigger] ids[i] < ids[i + 1],
    ensures
        forall|i: int, j: int| 0 <= i < j < ids.len() ==> ids[i] < ids[j],
{
    assert forall|i: int, j: int| 0 <= i < j < ids.len() implies ids[i] < ids[j] by {
        lemma_strict_from(ids, i, j);
    }
}

proof fn lemma_strict_from(ids: Seq<usize>, i: int, j: int)
    requires
        forall|k: int| 0 <= k < ids.len() - 1 ==> #[trigger] ids[k] < ids[k + 1],
        0 <= i < j < ids.len(),
    ensures
        ids[i] < ids[j],
    decreases j - i,
{
    if i + 1 < j {
        lemma_strict_from(ids, i, j - 1);
        assert(ids[j - 1] < ids[j]);
    }
}

/// Resolves one definition against the row names of a store.
pub fn resolve_def(def: &GenesetDef, genes: &[String]) -> (r: ResolvedGeneset)
    ensures
        is_resolution(*def, names_of(genes@), r),
{
    let ghost names = names_of(genes@);
    let ghost syms = names_of(def.genes@);
    let mut gene_ids: Vec<usize> = Vec::new();
    let mut missing: Vec<String> = Vec::new();
    let mut i: usize = 0;
    while i < def.genes.len()
        invariant
            i <= def.genes@.len(),
            names == names_of(genes@),
            syms == names_of(def.genes@),
            forall|k: int| 0 <= k < gene_ids@.len() - 1 ==> #[trigger] gene_ids@[k] < gene_ids@[k + 1],
            forall|x: usize|
                gene_ids@.contains(x) <==> exists|j: int|
                    0 <= j < i && first_row(names, #[trigger] def.genes@[j]@) == Some(x as int),
            names_of(missing@) == missing_of(names, syms.subrange(0, i as int)),
        decreases def.genes.len() - i,
    {
        let ghost pre = syms.subrange(0, i + 1);
        assert(pre.drop_last() =~= syms.subrange(0, i as int));
        assert(pre.last() == def.genes@[i as int]@);
        let ghost before = gene_ids@;
        match find_row(genes, &def.genes[i]) {
            Some(row) => {
                insert_sorted(&mut gene_ids, row);
                assert forall|x: usize|
                    gene_ids@.contains(x) <==> exists|j: int|
                        0 <= j < i + 1 && first_row(names, #[trigger] def.genes@[j]@) == Some(
                            x as int,
                        ) by {
                    if x == row {
                        assert(first_row(names, def.genes@[i as int]@) == Some(x as int));
                    }
                    if exists|j: int|
                        0 <= j < i + 1 && first_row(names, #[trigger] def.genes@[j]@) == Some(
                            x as int,
                        ) {
                        let j = choose|j: int|
                            0 <= j < i + 1 && first_row(names, #[trigger] def.genes@[j]@) == Some(
                                x as int,
                            );
                        if j < i {
                            assert(before.contains(x));
                        }
                    }
                }
                assert(names_of(missing@) =~= missing_of(names, pre));
            },
            None => {
                let ghost m = missing@;
                missing.push(def.genes[i].clone());
                assert(names_of(missing@) =~= names_of(m).push(def.genes@[i as int]@));
                assert forall|x: usize|
                    gene_ids@.contains(x) <==> exists|j: int|
                        0 <= j < i + 1 && first_row(names, #[trigger] def.genes@[j]@) == Some(
                            x as int,
                        ) by {
                    if exists|j: int|
                        0 <= j < i + 1 && first_row(names, #[trigger] def.genes@[j]@) == Some(
                            x as int,
                        ) {
                        let j = choose|j: int|
                            0 <= j < i + 1 && first_row(names, #[trigger] def.genes@[j]@) == Some(
                                x as int,
                            );
                        assert(j != i);
                    }
                }
            },
        }
        i += 1;
    }
    assert(syms.subrange(0, def.genes@.len() as int) =~= syms);
    ResolvedGeneset {
        id: def.id.clone(),
        axis: def.axis,
        gene_ids,
        missing,
        total: def.genes.len(),
    }
}

/// Resolves every definition of a collection, in order.
pub fn resolve_collection(collection: GenesetCollection, genes: &[String]) -> (r: GenesetCollection)
    ensures
        r.version@ == collection.version@,
        r.defs@ == collection.defs@,
        r.resolved@.len() == collection.defs@.len(),
        forall|i: int|
            0 <= i < r.resolved@.len() ==> is_resolution(
                collection.defs@[i],
                names_of(genes@),
                #[trigger] r.resolved@[i],
            ),
{
    let mut resolved: Vec<ResolvedGeneset> = Vec::with_capacity(collection.defs.len());
    let mut i: usize = 0;
    while i < collection.defs.len()
        invariant
            i <= collection.defs@.len(),
            resolved@.len() == i,
            forall|j: int|
                0 <= j < i ==> is_resolution(
                    collection.defs@[j],
                    names_of(genes@),
                    #[trigger] resolved@[j],
                ),
        decreases collection.defs.len() - i,
    {
        resolved.push(resolve_def(&collection.defs[i], genes));
        i += 1;
    }
    GenesetCollection { version: collection.version, defs: collection.defs, resolved }
}

} // verus!
