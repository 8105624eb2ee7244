//! Occurrence aggregation: one pass over the packages of a workspace that
//! counts, per dependency name, every site that declares it.
use vstd::prelude::*;

verus! {

/// One dependency as a package declares it, in one kind and scope.
pub struct DepDecl {
    pub name: String,
    /// The version requirement, as written (`"*"` where none was given).
    pub req: String,
    pub uses_default_features: bool,
    /// A local path override, relative to the workspace root.
    pub path: Option<String>,
}

/// A member package: its name, its manifest path (its identity) and every
/// dependency declaration it holds, over all kinds and target sections.
pub struct PackageDeps {
    pub name: String,
    pub manifest_path: String,
    pub dependencies: Vec<DepDecl>,
}

/// What the workspace holds of one dependency name.
pub struct Record {
    pub name: String,
    pub count: usize,
    /// The manifest path of the package behind each counted declaration.
    pub workspace_packages: Vec<String>,
    /// The requirement of the last declaration seen.
    pub version: String,
    /// The path override of the last declaration seen.
    pub path: Option<String>,
    /// Whether any declaration switched default features off.
    pub no_default_features: bool,
}

/// One declaration site, as the aggregation sees it.
pub struct Occurrence {
    pub package: Seq<char>,
    pub name: Seq<char>,
    pub req: Seq<char>,
    pub default_features: bool,
    pub path: Option<Seq<char>>,
}

/// The mathematical content of a `Record`, without its name.
pub struct RecordView {
    pub count: nat,
    pub packages: Seq<Seq<char>>,
    pub version: Seq<char>,
    pub path: Option<Seq<char>>,
    pub no_default_features: bool,
}

pub open spec fn opt_view(o: Option<String>) -> Option<Seq<char>> {
    match o {
        Some(s) => Some(s@),
        None => None,
    }
}

pub open spec fn strings_view(v: Seq<String>) -> Seq<Seq<char>> {
    v.map_values(|s: String| s@)
}

impl Record {
    pub open spec fn view_record(&self) -> RecordView {
        RecordView {
            count: self.count as nat,
            packages: strings_view(self.workspace_packages@),
            version: self.version@,
            path: opt_view(self.path),
            no_default_features: self.no_default_features,
        }
    }
}

pub open spec fn is_excluded(name: Seq<char>, exclude: Seq<String>) -> bool {
    exists|i: int| 0 <= i < exclude.len() && exclude[i]@ == name
}

pub open spec fn occurrence_of(package: Seq<char>, d: DepDecl) -> Occurrence {
    Occurrence {
        package,
        name: d.name@,
        req: d.req@,
        default_features: d.uses_default_features,
        path: opt_view(d.path),
    }
}

pub open spec fn package_occurrences(p: PackageDeps) -> Seq<Occurrence> {
    p.dependencies@.map_values(|d: DepDecl| occurrence_of(p.manifest_path@, d))
}

/// Every declaration site of the packages that are not excluded, in order.
pub open spec fn occurrences(pkgs: Seq<PackageDeps>, exclude: Seq<String>) -> Seq<Occurrence>
    decreases pkgs.len(),
{
    if pkgs.len() == 0 {
        seq![]
    } else {
        let before = occurrences(pkgs.drop_last(), exclude);
        if is_excluded(pkgs.last().name@, exclude) {
            before
        } else {
            before + package_occurrences(pkgs.last())
        }
    }
}

/// How many sites declare `name`.
pub open spec fn count_of(occ: Seq<Occurrence>, name: Seq<char>) -> nat
    decreases occ.len(),
{
    if occ.len() == 0 {
        0
    } else {
        count_of(occ.drop_last(), name) + if occ.last().name == name {
            1nat
        } else {
            0nat
        }
    }
}

pub open spec fn empty_record() -> RecordView {
    RecordView {
        count: 0,
        packages: seq![],
        version: seq![],
        path: None,
        no_default_features: false,
    }
}

/// The record of `name` after visiting `occ` in order: counts add up, the
/// requirement and the path of the last site win, and a site without default
/// features marks the record for good.
pub open spec fn record_of(occ: Seq<Occurrence>, name: Seq<char>) -> RecordView
    decreases occ.len(),
{
    if occ.len() == 0 {
        empty_record()
    } else {
        let r = record_of(occ.drop_last(), name);
        let o = occ.last();
        if o.name == name {
            RecordView {
                count: r.count + 1,
                packages: r.packages.push(o.package),
                version: o.req,
                path: o.path,
                no_default_features: r.no_default_features || !o.default_features,
            }
        } else {
            r
        }
    }
}

/// The names that occur, each once, in the order they are first seen.
pub open spec fn names_in_order(occ: Seq<Occurrence>) -> Seq<Seq<char>>
    decreases occ.len(),
{
    if occ.len() == 0 {
        seq![]
    } else {
        let ns = names_in_order(occ.drop_last());
        if ns.contains(occ.last().name) {
            ns
        } else {
            ns.push(occ.last().name)
        }
    }
}

/// `r` is the aggregation of `occ`: one record per name, in first-seen order.
pub open spec fn aggregates(r: Seq<Record>, occ: Seq<Occurrence>) -> bool {
    &&& r.len() == names_in_order(occ).len()
    &&& forall|i: int|
        0 <= i < r.len() ==> #[trigger] r[i].name@ == names_in_order(occ)[i]
            && r[i].view_record() == record_of(occ, r[i].name@)
}

/// No two records share a name.
pub open spec fn names_distinct(records: Seq<Record>) -> bool {
    forall|i: int, j: int|
        0 <= i < records.len() && 0 <= j < records.len() && i != j ==> #[trigger] records[i].name@
            != #[trigger] records[j].name@
}

/// The names of the records whose count reaches `threshold`, in order.
pub open spec fn candidate_list(records: Seq<Record>, threshold: nat) -> Seq<Seq<char>>
    decreases records.len(),
{
    if records.len() == 0 {
        seq![]
    } else {
        let before = candidate_list(records.drop_last(), threshold);
        if records.last().count >= threshold {
            before.push(records.last().name@)
        } else {
            before
        }
    }
}

proof fn lemma_record_count(occ: Seq<Occurrence>, name: Seq<char>)
    ensures
        record_of(occ, name).count == count_of(occ, name),
        count_of(occ, name) <= occ.len(),
    decreases occ.len(),
{
    if occ.len() > 0 {
        lemma_record_count(occ.drop_last(), name);
    }
}

proof fn lemma_names_in_order(occ: Seq<Occurrence>)
    ensures
        names_in_order(occ).no_duplicates(),
        forall|n: Seq<char>| names_in_order(occ).contains(n) <==> count_of(occ, n) > 0,
    decreases occ.len(),
{
    if occ.len() > 0 {
        lemma_names_in_order(occ.drop_last());
        let ns = names_in_order(occ.drop_last());
        let last = occ.last().name;
        assert forall|n: Seq<char>| names_in_order(occ).contains(n) <==> count_of(occ, n) > 0 by {
            if !ns.contains(last) {
                if n != last {
                    if ns.push(last).contains(n) {
                        let k = choose|k: int| 0 <= k < ns.push(last).len() && ns.push(last)[k] == n;
                        assert(ns[k] == n);
                    }
                    if ns.contains(n) {
                        let k = choose|k: int| 0 <= k < ns.len() && ns[k] == n;
                        assert(ns.push(last)[k] == n);
                    }
                } else {
                    assert(ns.push(last)[ns.len() as int] == n);
                }
            }
        }
    }
}

proof fn lemma_occurrences_step(pkgs: Seq<PackageDeps>, exclude: Seq<String>, i: int)
    requires
        0 <= i < pkgs.len(),
    ensures
        occurrences(pkgs.take(i + 1), exclude) == if is_excluded(pkgs[i].name@, exclude) {
            occurrences(pkgs.take(i), exclude)
        } else {
            occurrences(pkgs.take(i), exclude) + package_occurrences(pkgs[i])
        },
{
    assert(pkgs.take(i + 1).drop_last() =~= pkgs.take(i));
}

/// Visiting one more site keeps the other names' records and updates its own.
proof fn lemma_record_push(occ: Seq<Occurrence>, o: Occurrence, name: Seq<char>)
    ensures
        record_of(occ.push(o), name) == if o.name == name {
            RecordView {
                count: record_of(occ, name).count + 1,
                packages: record_of(occ, name).packages.push(o.package),
                version: o.req,
                path: o.path,
                no_default_features: record_of(occ, name).no_default_features
                    || !o.default_features,
            }
        } else {
            record_of(occ, name)
        },
{
    assert(occ.push(o).drop_last() =~= occ);
}

fn clone_path(o: &Option<String>) -> (r: Option<String>)
    ensures
        opt_view(r) == opt_view(*o),
{
    match o {
        Some(s) => Some(s.clone()),
        None => None,
    }
}

fn find_record(records: &Vec<Record>, name: &String) -> (r: Option<usize>)
    ensures
        match r {
            Some(k) => k < records@.len() && records@[k as int].name@ == name@,
            None => forall|k: int| 0 <= k < records@.len() ==> records@[k].name@ != name@,
        },
{
    let mut k: usize = 0;
    while k < records.len()
        invariant
            k <= records@.len(),
            forall|j: int| 0 <= j < k ==> records@[j].name@ != name@,
        decreases records@.len() - k,
    {
        if records[k].name == *name {
            return Some(k);
        }
        k = k + 1;
    }
    None
}

/// Adds one declaration site to the aggregation built so far.
fn visit(records: &mut Vec<Record>, package: &String, d: &DepDecl, Ghost(occ): Ghost<Seq<Occurrence>>)
    requires
        aggregates(old(records)@, occ),
        occ.len() < usize::MAX,
    ensures
        aggregates(final(records)@, occ.push(occurrence_of(package@, *d))),
{
    let ghost o = occurrence_of(package@, *d);
    let ghost next = occ.push(o);
    proof {
        lemma_names_in_order(occ);
        assert(next.drop_last() =~= occ);
        assert forall|n: Seq<char>| record_of(next, n) == if o.name == n {
            RecordView {
                count: record_of(occ, n).count + 1,
                packages: record_of(occ, n).packages.push(o.package),
                version: o.req,
                path: o.path,
                no_default_features: record_of(occ, n).no_default_features || !o.default_features,
            }
        } else {
            record_of(occ, n)
        } by {
            lemma_record_push(occ, o, n);
        }
    }
    match find_record(records, &d.name) {
        Some(k) => {
            let mut rec = records.remove(k);
            proof {
                lemma_record_count(occ, d.name@);
                assert(names_in_order(occ)[k as int] == d.name@);
                assert(names_in_order(occ).contains(d.name@));
                assert(names_in_order(next) == names_in_order(occ));
            }
            rec.count = rec.count + 1;
            rec.workspace_packages.push(package.clone());
            rec.version = d.req.clone();
            rec.path = clone_path(&d.path);
            rec.no_default_features = rec.no_default_features || !d.uses_default_features;
            records.insert(k, rec);
            proof {
                assert(strings_view(rec.workspace_packages@) =~= record_of(occ, d.name@).packages.push(
                    package@,
                ));
                assert forall|i: int| 0 <= i < records@.len() implies #[trigger] records@[i].name@
                    == names_in_order(next)[i] && records@[i].view_record() == record_of(
                    next,
                    records@[i].name@,
                ) by {
                    if i != k {
                        assert(records@[i] == old(records)@[i]);
                        assert(old(records)@[i].name@ != d.name@) by {
                            assert(names_in_order(occ)[i] != names_in_order(occ)[k as int]);
                        }
                    }
                }
            }
        },
        None => {
            proof {
                assert(!names_in_order(occ).contains(d.name@)) by {
                    if names_in_order(occ).contains(d.name@) {
                        let j = choose|j: int|
                            0 <= j < names_in_order(occ).len() && names_in_order(occ)[j] == d.name@;
                        assert(old(records)@[j].name@ == d.name@);
                    }
                }
                lemma_record_count(occ, d.name@);
                assert(names_in_order(next) == names_in_order(occ).push(d.name@));
            }
            let mut pkgs: Vec<String> = Vec::new();
            pkgs.push(package.clone());
            let rec = Record {
                name: d.name.clone(),
                count: 1,
                workspace_packages: pkgs,
                version: d.req.clone(),
                path: clone_path(&d.path),
                no_default_features: !d.uses_default_features,
            };
            records.push(rec);
            proof {
                assert(strings_view(rec.workspace_packages@) =~= seq![package@]);
                lemma_empty_packages(occ, d.name@);
                assert forall|i: int| 0 <= i < records@.len() implies #[trigger] records@[i].name@
                    == names_in_order(next)[i] && records@[i].view_record() == record_of(
                    next,
                    records@[i].name@,
                ) by {
                    if i < old(records)@.len() {
                        assert(records@[i] == old(records)@[i]);
                        lemma_record_push(occ, o, records@[i].name@);
                    } else {
                        lemma_record_push(occ, o, d.name@);
                        assert(records@[i] == rec);
                        assert(record_of(occ, d.name@).packages.push(package@) =~= seq![package@]);
                    }
                }
            }
        },
    }
}

proof fn lemma_empty_packages(occ: Seq<Occurrence>, name: Seq<char>)
    requires
        count_of(occ, name) == 0,
    ensures
        record_of(occ, name) == empty_record(),
    decreases occ.len(),
{
    if occ.len() > 0 {
        lemma_empty_packages(occ.drop_last(), name);
    }
}

fn excluded(name: &String, exclude: &Vec<String>) -> (r: bool)
    ensures
        r == is_excluded(name@, exclude@),
{
    let mut k: usize = 0;
    while k < exclude.len()
        invariant
            k <= exclude@.len(),
            forall|j: int| 0 <= j < k ==> exclude@[j]@ != name@,
        decreases exclude@.len() - k,
    {
        if exclude[k] == *name {
            return true;
        }
        k = k + 1;
    }
    false
}

/// Counts every declaration site of every package whose name is not in
/// `exclude`: one record per dependency name, in the order names are first
/// seen, each as `record_of` describes it.
pub fn aggregate(packages: &Vec<PackageDeps>, exclude: &Vec<String>) -> (r: Vec<Record>)
    requires
        occurrences(packages@, exclude@).len() < usize::MAX,
    ensures
        aggregates(r@, occurrences(packages@, exclude@)),
{
    let mut records: Vec<Record> = Vec::new();
    let mut i: usize = 0;
    proof {
        assert(packages@.take(0) =~= seq![]);
        assert(names_in_order(occurrences(packages@.take(0), exclude@)) =~= seq![]);
    }
    while i < packages.len()
        invariant
            i <= packages@.len(),
            occurrences(packages@, exclude@).len() < usize::MAX,
            aggregates(records@, occurrences(packages@.take(i as int), exclude@)),
        decreases packages@.len() - i,
    {
        let p = &packages[i];
        proof {
            lemma_occurrences_step(packages@, exclude@, i as int);
            lemma_occurrences_prefix(packages@, exclude@, i as int + 1);
        }
        if !excluded(&p.name, exclude) {
            let ghost base = occurrences(packages@.take(i as int), exclude@);
            let mut j: usize = 0;
            proof {
                assert(package_occurrences(*p).take(0) =~= seq![]);
                assert(base + package_occurrences(*p).take(0) =~= base);
            }
            while j < p.dependencies.len()
                invariant
                    i < packages@.len(),
                    p == packages@[i as int],
                    j <= p.dependencies@.len(),
                    (base + package_occurrences(*p)).len() < usize::MAX,
                    aggregates(records@, base + package_occurrences(*p).take(j as int)),
                decreases p.dependencies@.len() - j,
            {
                let ghost sofar = base + package_occurrences(*p).take(j as int);
                proof {
                    assert(sofar.len() < (base + package_occurrences(*p)).len());
                }
                visit(&mut records, &p.manifest_path, &p.dependencies[j], Ghost(sofar));
                proof {
                    assert(sofar.push(occurrence_of(p.manifest_path@, p.dependencies@[j as int]))
                        =~= base + package_occurrences(*p).take(j + 1));
                }
                j = j + 1;
            }
            proof {
                assert(package_occurrences(*p).take(j as int) =~= package_occurrences(*p));
            }
        }
        i = i + 1;
    }
    proof {
        assert(packages@.take(i as int) =~= packages@);
    }
    records
}

/// The occurrences of a prefix of the packages are no more than those of all.
proof fn lemma_occurrences_prefix(pkgs: Seq<PackageDeps>, exclude: Seq<String>, i: int)
    requires
        0 <= i <= pkgs.len(),
    ensures
        occurrences(pkgs.take(i), exclude).len() <= occurrences(pkgs, exclude).len(),
    decreases pkgs.len() - i,
{
    if i < pkgs.len() {
        lemma_occurrences_step(pkgs, exclude, i);
        lemma_occurrences_prefix(pkgs, exclude, i + 1);
    } else {
        assert(pkgs.take(i) =~= pkgs);
    }
}

/// The candidate set: the names of the records whose count is at least
/// `threshold`, in the records' order.
pub fn candidates(records: &Vec<Record>, threshold: usize) -> (r: Vec<String>)
    ensures
        strings_view(r@) == candidate_list(records@, threshold as nat),
{
    let mut r: Vec<String> = Vec::new();
    let mut i: usize = 0;
    while i < records.len()
        invariant
            i <= records@.len(),
            strings_view(r@) == candidate_list(records@.take(i as int), threshold as nat),
        decreases records@.len() - i,
    {
        proof {
            assert(records@.take(i + 1).drop_last() =~= records@.take(i as int));
        }
        if records[i].count >= threshold {
            r.push(records[i].name.clone());
            proof {
                assert(strings_view(r@) =~= strings_view(r@.drop_last()).push(r@.last()@));
            }
        }
        i = i + 1;
    }
    proof {
        assert(records@.take(i as int) =~= records@);
    }
    r
}

proof fn lemma_candidate_list(records: Seq<Record>, threshold: nat, name: Seq<char>)
    ensures
        candidate_list(records, threshold).contains(name) <==> exists|i: int|
            0 <= i < records.len() && #[trigger] records[i].name@ == name && records[i].count
                >= threshold,
    decreases records.len(),
{
    if records.len() > 0 {
        let before = candidate_list(records.drop_last(), threshold);
        lemma_candidate_list(records.drop_last(), threshold, name);
        if before.contains(name) {
            let i = choose|i: int|
                0 <= i < records.drop_last().len() && #[trigger] records.drop_last()[i].name@ == name
                    && records.drop_last()[i].count >= threshold;
            assert(records[i] == records.drop_last()[i]);
            if records.last().count >= threshold {
                let k = choose|k: int| 0 <= k < before.len() && before[k] == name;
                assert(before.push(records.last().name@)[k] == name);
            }
        }
        if exists|i: int|
            0 <= i < records.len() && #[trigger] records[i].name@ == name && records[i].count
                >= threshold {
            let i = choose|i: int|
                0 <= i < records.len() && #[trigger] records[i].name@ == name && records[i].count
                    >= threshold;
            if i < records.len() - 1 {
                assert(records.drop_last()[i] == records[i]);
                if records.last().count >= threshold {
                    let k = choose|k: int| 0 <= k < before.len() && before[k] == name;
                    assert(before.push(records.last().name@)[k] == name);
                }
            } else {
                let ext = before.push(records.last().name@);
                assert(ext[before.len() as int] == name);
            }
        }
    }
}

/// A dependency name that occurs in the workspace is a candidate exactly when
/// its occurrence count reaches the threshold.
pub proof fn candidate_iff_count_reaches_threshold(
    packages: Seq<PackageDeps>,
    exclude: Seq<String>,
    records: Seq<Record>,
    threshold: nat,
    name: Seq<char>,
)
    requires
        aggregates(records, occurrences(packages, exclude)),
        count_of(occurrences(packages, exclude), name) > 0,
    ensures
        candidate_list(records, threshold).contains(name) <==> count_of(
            occurrences(packages, exclude),
            name,
        ) >= threshold,
{
    let occ = occurrences(packages, exclude);
    lemma_names_in_order(occ);
    lemma_record_count(occ, name);
    lemma_candidate_list(records, threshold, name);
    assert(names_in_order(occ).contains(name));
    let k = choose|k: int| 0 <= k < names_in_order(occ).len() && names_in_order(occ)[k] == name;
    assert(records[k].name@ == name);
    assert(records[k].view_record() == record_of(occ, name));
    if candidate_list(records, threshold).contains(name) {
        let i = choose|i: int|
            0 <= i < records.len() && #[trigger] records[i].name@ == name && records[i].count
                >= threshold;
        assert(records[i].view_record() == record_of(occ, name));
    }
}

/// Raising the threshold can only shrink the candidate set.
pub proof fn candidates_shrink_as_threshold_rises(
    records: Seq<Record>,
    low: nat,
    high: nat,
    name: Seq<char>,
)
    requires
        low <= high,
        candidate_list(records, high).contains(name),
    ensures
        candidate_list(records, low).contains(name),
{
    lemma_candidate_list(records, high, name);
    lemma_candidate_list(records, low, name);
}

/// An aggregation holds one record per name.
pub proof fn aggregated_names_distinct(records: Seq<Record>, occ: Seq<Occurrence>)
    requires
        aggregates(records, occ),
    ensures
        names_distinct(records),
{
    lemma_names_in_order(occ);
    assert forall|i: int, j: int|
        0 <= i < records.len() && 0 <= j < records.len() && i != j implies #[trigger] records[i].name@
            != #[trigger] records[j].name@ by {
        assert(records[i].name@ == names_in_order(occ)[i]);
        assert(records[j].name@ == names_in_order(occ)[j]);
    }
}

} // verus!
