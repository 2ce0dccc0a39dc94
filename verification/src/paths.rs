//! Which files a run formats: the Rust source files among the candidates,
//! once each, in path order.
use vstd::prelude::*;

use crate::order::{
    lemma_lex_decide, lemma_lex_strict_total, lemma_sorted_unique, lex_lt, strict_total,
    strictly_sorted,
};

verus! {

/// One component of a path, as `std::path::Component` gives it on Unix.
#[derive(Debug)]
pub enum PathComponent {
    /// The root directory `/`.
    RootDir,
    /// A leading `.`.
    CurDir,
    /// `..`.
    ParentDir,
    /// A file or directory name, as bytes.
    Normal(Vec<u8>),
}

/// A path, as its components.
#[derive(Debug)]
pub struct SourcePath {
    pub components: Vec<PathComponent>,
}

impl View for PathComponent {
    /// The component's rank in the order of component kinds, and its name.
    type V = (int, Seq<u8>);

    open spec fn view(&self) -> (int, Seq<u8>) {
        match self {
            PathComponent::RootDir => (0, seq![]),
            PathComponent::CurDir => (1, seq![]),
            PathComponent::ParentDir => (2, seq![]),
            PathComponent::Normal(name) => (3, name@),
        }
    }
}

impl View for SourcePath {
    type V = Seq<(int, Seq<u8>)>;

    open spec fn view(&self) -> Seq<(int, Seq<u8>)> {
        self.components@.map_values(|c: PathComponent| c@)
    }
}

/// The order of bytes.
pub open spec fn byte_lt() -> spec_fn(u8, u8) -> bool {
    |x: u8, y: u8| x < y
}

/// The order of path components: by kind (root, `.`, `..`, name), names by
/// their bytes.
pub open spec fn part_lt() -> spec_fn((int, Seq<u8>), (int, Seq<u8>)) -> bool {
    |x: (int, Seq<u8>), y: (int, Seq<u8>)| x.0 < y.0 || (x.0 == y.0 && lex_lt(x.1, y.1, byte_lt()))
}

/// The order of paths: by their components (`Ord for Path`).
pub open spec fn path_lt() -> spec_fn(Seq<(int, Seq<u8>)>, Seq<(int, Seq<u8>)>) -> bool {
    |a: Seq<(int, Seq<u8>)>, b: Seq<(int, Seq<u8>)>| lex_lt(a, b, part_lt())
}

/// The orders on components and on paths are strict total orders.
pub proof fn lemma_path_order()
    ensures
        strict_total(part_lt()),
        strict_total(path_lt()),
{
    assert(strict_total(byte_lt()));
    lemma_lex_strict_total(byte_lt());
    let bl = |a: Seq<u8>, b: Seq<u8>| lex_lt(a, b, byte_lt());
    assert(strict_total(bl));
    let pl = part_lt();
    assert forall|x: (int, Seq<u8>)| !#[trigger] pl(x, x) by {
        assert(!bl(x.1, x.1));
    }
    assert forall|x: (int, Seq<u8>), y: (int, Seq<u8>), z: (int, Seq<u8>)|
        #[trigger] pl(x, y) && #[trigger] pl(y, z) implies pl(x, z) by {
        if x.0 == y.0 && y.0 == z.0 {
            assert(bl(x.1, y.1) && bl(y.1, z.1));
            assert(bl(x.1, z.1));
        }
    }
    assert forall|x: (int, Seq<u8>), y: (int, Seq<u8>)| x != y implies #[trigger] pl(x, y)
        || #[trigger] pl(y, x) by {
        if x.0 == y.0 {
            assert(x.1 != y.1);
            assert(bl(x.1, y.1) || bl(y.1, x.1));
        }
    }
    lemma_lex_strict_total(part_lt());
    let ll = |a: Seq<(int, Seq<u8>)>, b: Seq<(int, Seq<u8>)>| lex_lt(a, b, part_lt());
    assert(ll == path_lt());
}

/// The result of a comparison.
#[derive(Debug, Clone, Copy, PartialEq, Eq, Structural)]
pub enum Order {
    Less,
    Same,
    Greater,
}

/// Compares two byte strings.
pub fn compare_bytes(a: &[u8], b: &[u8]) -> (res: Order)
    ensures
        (res is Less) == lex_lt(a@, b@, byte_lt()),
        (res is Same) == (a@ == b@),
        (res is Greater) == lex_lt(b@, a@, byte_lt()),
{
    let mut i: usize = 0;
    while i < a.len() && i < b.len() && a[i] == b[i]
        invariant
            i <= a@.len(),
            i <= b@.len(),
            forall|j: int| 0 <= j < i ==> a@[j] == b@[j],
        decreases a@.len() - i,
    {
        i += 1;
    }
    proof {
        assert(strict_total(byte_lt()));
        lemma_lex_decide(a@, b@, byte_lt(), i as int);
    }
    if i < a.len() && i < b.len() {
        if a[i] < b[i] {
            Order::Less
        } else {
            Order::Greater
        }
    } else if a.len() == b.len() {
        Order::Same
    } else if a.len() < b.len() {
        Order::Less
    } else {
        Order::Greater
    }
}

fn component_rank(c: &PathComponent) -> (r: u8)
    ensures
        r == c@.0,
{
    match c {
        PathComponent::RootDir => 0,
        PathComponent::CurDir => 1,
        PathComponent::ParentDir => 2,
        PathComponent::Normal(_) => 3,
    }
}

/// Compares two path components.
pub fn compare_components(x: &PathComponent, y: &PathComponent) -> (res: Order)
    ensures
        (res is Less) == part_lt()(x@, y@),
        (res is Same) == (x@ == y@),
        (res is Greater) == part_lt()(y@, x@),
{
    proof {
        lemma_path_order();
        assert(strict_total(byte_lt()));
        crate::order::lemma_lex_irreflexive(x@.1, byte_lt());
    }
    let rx: u8 = component_rank(x);
    let ry: u8 = component_rank(y);
    if rx < ry {
        return Order::Less;
    }
    if ry < rx {
        return Order::Greater;
    }
    match (x, y) {
        (PathComponent::Normal(a), PathComponent::Normal(b)) => compare_bytes(a.as_slice(), b.as_slice()),
        _ => {
            assert(x@.1 =~= y@.1);
            Order::Same
        },
    }
}

/// Compares two paths.
pub fn compare_paths(a: &SourcePath, b: &SourcePath) -> (res: Order)
    ensures
        (res is Less) == path_lt()(a@, b@),
        (res is Same) == (a@ == b@),
        (res is Greater) == path_lt()(b@, a@),
{
    let ca: &Vec<PathComponent> = &a.components;
    let cb: &Vec<PathComponent> = &b.components;
    let mut i: usize = 0;
    while i < ca.len() && i < cb.len()
        invariant
            i <= ca@.len(),
            i <= cb@.len(),
            a@.len() == ca@.len(),
            b@.len() == cb@.len(),
            forall|j: int| 0 <= j < a@.len() ==> a@[j] == ca@[j]@,
            forall|j: int| 0 <= j < b@.len() ==> b@[j] == cb@[j]@,
            forall|j: int| 0 <= j < i ==> a@[j] == b@[j],
        decreases ca@.len() - i,
    {
        let o: Order = compare_components(&ca[i], &cb[i]);
        match o {
            Order::Same => {},
            _ => {
                proof {
                    lemma_path_order();
                    lemma_lex_decide(a@, b@, part_lt(), i as int);
                }
                return o;
            },
        }
        i += 1;
    }
    proof {
        lemma_path_order();
        lemma_lex_decide(a@, b@, part_lt(), i as int);
    }
    if ca.len() == cb.len() {
        Order::Same
    } else if ca.len() < cb.len() {
        Order::Less
    } else {
        Order::Greater
    }
}

/// A file name with the extension `rs`: it ends with `.rs` and something
/// comes before that dot (`Path::extension`).
pub open spec fn has_rust_extension(name: Seq<u8>) -> bool {
    &&& name.len() >= 4
    &&& name[name.len() - 3] == 46
    &&& name[name.len() - 2] == 114
    &&& name[name.len() - 1] == 115
}

/// A path whose file name has the extension `rs`.
pub open spec fn is_rust_path(p: Seq<(int, Seq<u8>)>) -> bool {
    p.len() > 0 && p.last().0 == 3 && has_rust_extension(p.last().1)
}

/// Whether `path` names a Rust source file (its extension is `rs`).
pub fn is_rust_file(path: &SourcePath) -> (res: bool)
    ensures
        res == is_rust_path(path@),
{
    let n: usize = path.components.len();
    if n == 0 {
        return false;
    }
    match &path.components[n - 1] {
        PathComponent::Normal(name) => {
            let k: usize = name.len();
            k >= 4 && name[k - 3] == 46 && name[k - 2] == 114 && name[k - 1] == 115
        },
        _ => false,
    }
}

/// The views of `s`.
pub open spec fn path_views(s: Seq<SourcePath>) -> Seq<Seq<(int, Seq<u8>)>> {
    s.map_values(|p: SourcePath| p@)
}

/// `res` lists the Rust source files among `candidates`, each once, in path
/// order.
pub open spec fn gathered(
    candidates: Seq<Seq<(int, Seq<u8>)>>,
    res: Seq<Seq<(int, Seq<u8>)>>,
) -> bool {
    &&& strictly_sorted(res, path_lt())
    &&& forall|p: Seq<(int, Seq<u8>)>|
        #![trigger res.contains(p)]
        #![trigger candidates.contains(p)]
        res.contains(p) <==> (candidates.contains(p) && is_rust_path(p))
}

/// A copy of `path`.
pub fn copy_path(path: &SourcePath) -> (res: SourcePath)
    ensures
        res@ == path@,
{
    let mut components: Vec<PathComponent> = Vec::new();
    let mut i: usize = 0;
    while i < path.components.len()
        invariant
            i <= path.components@.len(),
            components@.len() == i,
            forall|j: int| 0 <= j < i ==> components@[j]@ == path.components@[j]@,
        decreases path.components@.len() - i,
    {
        let c: PathComponent = match &path.components[i] {
            PathComponent::RootDir => PathComponent::RootDir,
            PathComponent::CurDir => PathComponent::CurDir,
            PathComponent::ParentDir => PathComponent::ParentDir,
            PathComponent::Normal(name) => {
                let mut copy: Vec<u8> = Vec::new();
                let mut q: usize = 0;
                while q < name.len()
                    invariant
                        q <= name@.len(),
                        copy@ == name@.take(q as int),
                    decreases name@.len() - q,
                {
                    copy.push(name[q]);
                    q += 1;
                    assert(copy@ =~= name@.take(q as int));
                }
                assert(copy@ =~= name@);
                PathComponent::Normal(copy)
            },
        };
        components.push(c);
        i += 1;
    }
    let res = SourcePath { components };
    assert(res@ =~= path@);
    res
}

/// Puts `path` into the strictly sorted `files`, unless it is there already.
fn insert_path(files: &mut Vec<SourcePath>, path: SourcePath)
    requires
        strictly_sorted(path_views(old(files)@), path_lt()),
    ensures
        strictly_sorted(path_views(final(files)@), path_lt()),
        forall|p: Seq<(int, Seq<u8>)>|
            path_views(final(files)@).contains(p) <==> (path_views(old(files)@).contains(p) || p
                == path@),
{
    proof {
        lemma_path_order();
    }
    let ghost old_views = path_views(files@);
    let mut p: usize = 0;
    while p < files.len() && matches!(compare_paths(&files[p], &path), Order::Less)
        invariant
            p <= files@.len(),
            files@ == old(files)@,
            forall|q: int| 0 <= q < p ==> #[trigger] path_lt()(files@[q]@, path@),
        decreases files@.len() - p,
    {
        p += 1;
    }
    if p < files.len() && matches!(compare_paths(&files[p], &path), Order::Same) {
        assert(old_views[p as int] == path@);
        assert(forall|y: Seq<(int, Seq<u8>)>| y == path@ ==> old_views.contains(y));
        return;
    }
    let ghost x = path@;
    proof {
        if p < files@.len() {
            assert(path_lt()(x, files@[p as int]@));
        }
        assert forall|q: int| 0 <= q < old_views.len() implies #[trigger] old_views[q] != x by {
            if q < p {
                assert(path_lt()(files@[q]@, x));
            } else if q > p {
                assert(path_lt()(old_views[p as int], old_views[q]));
                assert(path_lt()(x, old_views[p as int]));
            } else {
                assert(path_lt()(x, old_views[p as int]));
            }
        }
    }
    files.insert(p, path);
    proof {
        let nv = path_views(files@);
        assert(nv =~= old_views.take(p as int).push(x) + old_views.skip(p as int));
        assert forall|i: int, j: int| 0 <= i < j < nv.len() implies #[trigger] path_lt()(nv[i], nv[j]) by {
            if j < p {
                assert(nv[i] == old_views[i] && nv[j] == old_views[j]);
            } else if j == p {
                assert(nv[i] == old_views[i]);
                assert(path_lt()(files@[i]@, x));
            } else if i < p {
                assert(nv[i] == old_views[i] && nv[j] == old_views[j - 1]);
                assert(path_lt()(old_views[i], x));
                if j - 1 > p {
                    assert(path_lt()(old_views[p as int], old_views[j - 1]));
                }
                assert(path_lt()(x, old_views[j - 1]));
            } else if i == p {
                assert(nv[j] == old_views[j - 1]);
                if j - 1 > p {
                    assert(path_lt()(old_views[p as int], old_views[j - 1]));
                }
            } else {
                assert(nv[i] == old_views[i - 1] && nv[j] == old_views[j - 1]);
            }
        }
        assert forall|y: Seq<(int, Seq<u8>)>| nv.contains(y) <==> (old_views.contains(y) || y == x) by {
            if nv.contains(y) {
                let k = choose|k: int| 0 <= k < nv.len() && nv[k] == y;
                if k < p {
                    assert(old_views[k] == y);
                } else if k > p {
                    assert(old_views[k - 1] == y);
                }
            }
            if old_views.contains(y) {
                let k = choose|k: int| 0 <= k < old_views.len() && old_views[k] == y;
                if k < p {
                    assert(nv[k] == y);
                } else {
                    assert(nv[k + 1] == y);
                }
            }
            if y == x {
                assert(nv[p as int] == y);
            }
        }
    }
}

/// The Rust source files among `candidates`, each once, in path order.
pub fn gather_files(candidates: &[SourcePath]) -> (res: Vec<SourcePath>)
    ensures
        gathered(path_views(candidates@), path_views(res@)),
{
    let mut files: Vec<SourcePath> = Vec::new();
    let mut t: usize = 0;
    let ghost cv = path_views(candidates@);
    assert(path_views(files@) =~= Seq::<Seq<(int, Seq<u8>)>>::empty());
    assert(cv.take(0) =~= Seq::<Seq<(int, Seq<u8>)>>::empty());
    while t < candidates.len()
        invariant
            t <= candidates@.len(),
            cv == path_views(candidates@),
            strictly_sorted(path_views(files@), path_lt()),
            forall|p: Seq<(int, Seq<u8>)>|
                #![trigger path_views(files@).contains(p)]
                #![trigger cv.take(t as int).contains(p)]
                path_views(files@).contains(p) <==> (cv.take(t as int).contains(p) && is_rust_path(p)),
        decreases candidates@.len() - t,
    {
        let ghost before = path_views(files@);
        let ghost c = candidates@[t as int]@;
        assert(cv.take(t + 1) =~= cv.take(t as int).push(c));
        if is_rust_file(&candidates[t]) {
            insert_path(&mut files, copy_path(&candidates[t]));
        }
        proof {
            assert forall|p: Seq<(int, Seq<u8>)>| path_views(files@).contains(p) <==> (cv.take(
                t + 1,
            ).contains(p) && is_rust_path(p)) by {
                assert(cv.take(t as int).push(c).contains(p) <==> (cv.take(t as int).contains(p)
                    || p == c)) by {
                    if cv.take(t as int).push(c).contains(p) {
                        let k = choose|k: int|
                            0 <= k < t + 1 && #[trigger] cv.take(t as int).push(c)[k] == p;
                        if k < t {
                            assert(cv.take(t as int)[k] == p);
                        }
                    }
                    if cv.take(t as int).contains(p) {
                        let k = choose|k: int| 0 <= k < t && #[trigger] cv.take(t as int)[k] == p;
                        assert(cv.take(t as int).push(c)[k] == p);
                    }
                    if p == c {
                        assert(cv.take(t as int).push(c)[t as int] == p);
                    }
                }
            }
        }
        t += 1;
    }
    assert(cv.take(t as int) =~= cv);
    files
}

/// Which files the result of `gather_files` lists depends only on which
/// paths are among the candidates, not on their order or repetitions.
pub proof fn lemma_gather_depends_only_on_set(
    c1: Seq<Seq<(int, Seq<u8>)>>,
    c2: Seq<Seq<(int, Seq<u8>)>>,
    r1: Seq<Seq<(int, Seq<u8>)>>,
    r2: Seq<Seq<(int, Seq<u8>)>>,
)
    requires
        gathered(c1, r1),
        gathered(c2, r2),
        forall|p: Seq<(int, Seq<u8>)>| c1.contains(p) <==> c2.contains(p),
    ensures
        r1 == r2,
{
    lemma_path_order();
    assert forall|p: Seq<(int, Seq<u8>)>| r1.contains(p) <==> r2.contains(p) by {
        assert(r1.contains(p) <==> (c1.contains(p) && is_rust_path(p)));
        assert(r2.contains(p) <==> (c2.contains(p) && is_rust_path(p)));
    }
    lemma_sorted_unique(r1, r2, path_lt());
}

/// Gathering the result of `gather_files` again gives it back unchanged.
pub proof fn lemma_gather_idempotent(
    c: Seq<Seq<(int, Seq<u8>)>>,
    r: Seq<Seq<(int, Seq<u8>)>>,
    r2: Seq<Seq<(int, Seq<u8>)>>,
)
    requires
        gathered(c, r),
        gathered(r, r2),
    ensures
        r2 == r,
{
    lemma_path_order();
    assert forall|p: Seq<(int, Seq<u8>)>| r2.contains(p) <==> r.contains(p) by {
        assert(r2.contains(p) <==> (r.contains(p) && is_rust_path(p)));
        assert(r.contains(p) <==> (c.contains(p) && is_rust_path(p)));
    }
    lemma_sorted_unique(r2, r, path_lt());
}

/// The paths to scan: the given ones, or `src` and `tests` when none is
/// given.
pub fn scan_roots(inputs: Vec<SourcePath>) -> (res: Vec<SourcePath>)
    ensures
        inputs@.len() > 0 ==> res@ == inputs@,
        inputs@.len() == 0 ==> path_views(res@) == seq![
            seq![(3int, seq![115u8, 114u8, 99u8])],
            seq![(3int, seq![116u8, 101u8, 115u8, 116u8, 115u8])],
        ],
{
    if inputs.len() > 0 {
        return inputs;
    }
    let src: Vec<u8> = vec![115u8, 114u8, 99u8];
    let tests: Vec<u8> = vec![116u8, 101u8, 115u8, 116u8, 115u8];
    assert(src@ =~= seq![115u8, 114u8, 99u8]);
    assert(tests@ =~= seq![116u8, 101u8, 115u8, 116u8, 115u8]);
    let mut roots: Vec<SourcePath> = Vec::new();
    let mut c1: Vec<PathComponent> = Vec::new();
    c1.push(PathComponent::Normal(src));
    roots.push(SourcePath { components: c1 });
    let mut c2: Vec<PathComponent> = Vec::new();
    c2.push(PathComponent::Normal(tests));
    roots.push(SourcePath { components: c2 });
    assert(roots@[0]@ =~= seq![(3int, seq![115u8, 114u8, 99u8])]);
    assert(roots@[1]@ =~= seq![(3int, seq![116u8, 101u8, 115u8, 116u8, 115u8])]);
    assert(path_views(roots@) =~= seq![
        seq![(3int, seq![115u8, 114u8, 99u8])],
        seq![(3int, seq![116u8, 101u8, 115u8, 116u8, 115u8])],
    ]);
    roots
}

} // verus!
