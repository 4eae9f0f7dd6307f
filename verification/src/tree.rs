//! The path-tree builder: turns a flat list of filesystem entries with
//! full paths into an ancestor-complete forest, synthesizing missing
//! intermediate directories, detecting incompatible insertions, and
//! keeping entries in one deterministic order independent of insertion
//! order.
use vstd::prelude::*;

use crate::error::SqfsError;
use crate::bytes::copy_range;
use crate::node::{Node, NodeV, bytes_eq, node_eq};

verus! {

pub const SLASH: u8 = 47;

pub const DOT: u8 = 46;

/// A well-formed path component: non-empty, no separator, and not one
/// of the two relative markers.
pub open spec fn spec_comp_ok(c: Seq<u8>) -> bool {
    &&& c.len() > 0
    &&& (forall|i: int| 0 <= i < c.len() ==> c[i] != SLASH)
    &&& c != seq![DOT]
    &&& c != seq![DOT, DOT]
}

/// One step of path normalization: empty components and `.` vanish,
/// `..` removes the last kept component, anything else is kept.
pub open spec fn spec_norm_step(acc: Seq<Seq<u8>>, comp: Seq<u8>) -> Seq<Seq<u8>> {
    if comp.len() == 0 || comp == seq![DOT] {
        acc
    } else if comp == seq![DOT, DOT] {
        if acc.len() > 0 {
            acc.drop_last()
        } else {
            acc
        }
    } else {
        acc.push(comp)
    }
}

/// Normalize the bytes of a path from position `i`, given the
/// components kept so far and the partial component being read.
pub open spec fn spec_norm_from(s: Seq<u8>, i: int, acc: Seq<Seq<u8>>, cur: Seq<u8>) -> Seq<
    Seq<u8>,
>
    decreases s.len() - i
    when 0 <= i <= s.len()
{
    if i == s.len() {
        spec_norm_step(acc, cur)
    } else if s[i] == SLASH {
        spec_norm_from(s, i + 1, spec_norm_step(acc, cur), Seq::empty())
    } else {
        spec_norm_from(s, i + 1, acc, cur.push(s[i]))
    }
}

/// The normalized component sequence of a path: separators split, `.`
/// and empty components dropped, `..` resolved, any root prefix gone.
pub open spec fn spec_normalize(s: Seq<u8>) -> Seq<Seq<u8>> {
    spec_norm_from(s, 0, Seq::empty(), Seq::empty())
}

/// Normalization only ever keeps well-formed components.
proof fn lemma_norm_from_ok(s: Seq<u8>, i: int, acc: Seq<Seq<u8>>, cur: Seq<u8>)
    requires
        0 <= i <= s.len(),
        forall|j: int| 0 <= j < acc.len() ==> spec_comp_ok(#[trigger] acc[j]),
        forall|j: int| 0 <= j < cur.len() ==> cur[j] != SLASH,
    ensures
        forall|j: int|
            0 <= j < spec_norm_from(s, i, acc, cur).len() ==> spec_comp_ok(
                #[trigger] spec_norm_from(s, i, acc, cur)[j],
            ),
    decreases s.len() - i,
{
    let stepped = spec_norm_step(acc, cur);
    assert(forall|j: int| 0 <= j < stepped.len() ==> spec_comp_ok(#[trigger] stepped[j]));
    if i == s.len() {
        assert(spec_norm_from(s, i, acc, cur) == stepped);
    } else if s[i] == SLASH {
        lemma_norm_from_ok(s, i + 1, stepped, Seq::empty());
        assert(spec_norm_from(s, i, acc, cur) == spec_norm_from(s, i + 1, stepped, Seq::empty()));
    } else {
        lemma_norm_from_ok(s, i + 1, acc, cur.push(s[i]));
        assert(spec_norm_from(s, i, acc, cur) == spec_norm_from(s, i + 1, acc, cur.push(s[i])));
    }
}

/// All components a normalized path holds are well-formed.
pub proof fn lemma_normalize_ok(s: Seq<u8>)
    ensures
        forall|j: int|
            0 <= j < spec_normalize(s).len() ==> spec_comp_ok(#[trigger] spec_normalize(s)[j]),
{
    lemma_norm_from_ok(s, 0, Seq::empty(), Seq::empty());
}

/// The view of a vector of components.
pub open spec fn comps_view(v: Seq<Vec<u8>>) -> Seq<Seq<u8>> {
    v.map_values(|c: Vec<u8>| c@)
}

/// Normalize a path, exactly as the normalization function of the
/// format says.
pub fn normalize(path: &Vec<u8>) -> (r: Vec<Vec<u8>>)
    ensures
        comps_view(r@) == spec_normalize(path@),
{
    let n = path.len();
    let mut acc: Vec<Vec<u8>> = Vec::new();
    let mut cur: Vec<u8> = Vec::new();
    let mut i: usize = 0;
    proof {
        assert(comps_view(acc@) =~= Seq::<Seq<u8>>::empty());
        assert(cur@ =~= Seq::<u8>::empty());
    }
    while i < n
        invariant
            i <= n,
            n == path@.len(),
            spec_norm_from(path@, i as int, comps_view(acc@), cur@) == spec_normalize(path@),
        decreases n - i,
    {
        let b = path[i];
        if b == SLASH {
            let ghost pre_acc = comps_view(acc@);
            let ghost pre_cur = cur@;
            step_component(&mut acc, cur);
            cur = Vec::new();
            proof {
                assert(comps_view(acc@) == spec_norm_step(pre_acc, pre_cur));
                assert(cur@ =~= Seq::<u8>::empty());
            }
        } else {
            cur.push(b);
        }
        i = i + 1;
    }
    let ghost pre_acc = comps_view(acc@);
    let ghost pre_cur = cur@;
    step_component(&mut acc, cur);
    proof {
        assert(comps_view(acc@) == spec_norm_step(pre_acc, pre_cur));
    }
    acc
}

/// Apply one normalization step to the accumulated components.
fn step_component(acc: &mut Vec<Vec<u8>>, comp: Vec<u8>)
    ensures
        comps_view(final(acc)@) == spec_norm_step(comps_view(old(acc)@), comp@),
{
    let len = comp.len();
    if len == 0 {
        proof {
            assert(comp@.len() == 0);
        }
        return ;
    }
    if len == 1 && comp[0] == DOT {
        proof {
            assert(comp@ =~= seq![DOT]);
        }
        return ;
    }
    if len == 2 && comp[0] == DOT && comp[1] == DOT {
        proof {
            assert(comp@ =~= seq![DOT, DOT]);
        }
        if acc.len() > 0 {
            acc.pop();
            proof {
                assert(comps_view(acc@) =~= comps_view(old(acc)@).drop_last());
            }
        }
        return ;
    }
    proof {
        assert(comp@ != seq![DOT] && comp@ != seq![DOT, DOT] && comp@.len() != 0);
    }
    acc.push(comp);
    proof {
        assert(comps_view(acc@) =~= comps_view(old(acc)@).push(comp@));
    }
}

/// Strict lexicographic order on byte strings.
pub open spec fn lex_lt(a: Seq<u8>, b: Seq<u8>) -> bool
    decreases b.len(),
{
    if b.len() == 0 {
        false
    } else if a.len() == 0 {
        true
    } else if a.first() < b.first() {
        true
    } else if a.first() > b.first() {
        false
    } else {
        lex_lt(a.drop_first(), b.drop_first())
    }
}

/// The byte order is irreflexive.
pub proof fn lemma_lex_irrefl(a: Seq<u8>)
    ensures
        !lex_lt(a, a),
    decreases a.len(),
{
    if a.len() > 0 {
        lemma_lex_irrefl(a.drop_first());
    }
}

/// The byte order is transitive.
pub proof fn lemma_lex_trans(a: Seq<u8>, b: Seq<u8>, c: Seq<u8>)
    requires
        lex_lt(a, b),
        lex_lt(b, c),
    ensures
        lex_lt(a, c),
    decreases c.len(),
{
    if a.len() > 0 && b.len() > 0 && c.len() > 0 && a.first() == b.first() && b.first()
        == c.first() {
        lemma_lex_trans(a.drop_first(), b.drop_first(), c.drop_first());
    }
}

/// The byte order is connected: incomparable strings are equal.
pub proof fn lemma_lex_conn(a: Seq<u8>, b: Seq<u8>)
    requires
        !lex_lt(a, b),
        !lex_lt(b, a),
    ensures
        a == b,
    decreases a.len(),
{
    if a.len() == 0 || b.len() == 0 {
        assert(a =~= b);
    } else {
        lemma_lex_conn(a.drop_first(), b.drop_first());
        assert(a =~= seq![a.first()] + a.drop_first());
        assert(b =~= seq![b.first()] + b.drop_first());
    }
}

/// Strict lexicographic order on component paths, ordering components
/// by the byte order.
pub open spec fn path_lt(a: Seq<Seq<u8>>, b: Seq<Seq<u8>>) -> bool
    decreases b.len(),
{
    if b.len() == 0 {
        false
    } else if a.len() == 0 {
        true
    } else if lex_lt(a.first(), b.first()) {
        true
    } else if lex_lt(b.first(), a.first()) {
        false
    } else {
        path_lt(a.drop_first(), b.drop_first())
    }
}

/// The path order is irreflexive.
pub proof fn lemma_path_irrefl(a: Seq<Seq<u8>>)
    ensures
        !path_lt(a, a),
    decreases a.len(),
{
    if a.len() > 0 {
        lemma_lex_irrefl(a.first());
        lemma_path_irrefl(a.drop_first());
    }
}

/// The path order is transitive.
pub proof fn lemma_path_trans(a: Seq<Seq<u8>>, b: Seq<Seq<u8>>, c: Seq<Seq<u8>>)
    requires
        path_lt(a, b),
        path_lt(b, c),
    ensures
        path_lt(a, c),
    decreases c.len(),
{
    if a.len() > 0 && b.len() > 0 && c.len() > 0 {
        if !lex_lt(a.first(), b.first()) && !lex_lt(b.first(), a.first()) && !lex_lt(
            b.first(),
            c.first(),
        ) && !lex_lt(c.first(), b.first()) {
            lemma_lex_conn(a.first(), b.first());
            lemma_lex_conn(b.first(), c.first());
            lemma_path_trans(a.drop_first(), b.drop_first(), c.drop_first());
        } else if lex_lt(a.first(), b.first()) && !lex_lt(b.first(), c.first()) && !lex_lt(
            c.first(),
            b.first(),
        ) {
            lemma_lex_conn(b.first(), c.first());
        } else if lex_lt(b.first(), c.first()) && !lex_lt(a.first(), b.first()) && !lex_lt(
            b.first(),
            a.first(),
        ) {
            lemma_lex_conn(a.first(), b.first());
        } else if lex_lt(a.first(), b.first()) && lex_lt(b.first(), c.first()) {
            lemma_lex_trans(a.first(), b.first(), c.first());
        }
    }
}

/// Compare the components of two paths from position `i` on, the common
/// prefix before `i` being equal.
fn path_cmp_from(a: &Vec<Vec<u8>>, b: &Vec<Vec<u8>>, i: usize) -> (r: i8)
    requires
        i <= a@.len(),
        i <= b@.len(),
    ensures
        r == -1 <==> path_lt(comps_view(a@).skip(i as int), comps_view(b@).skip(i as int)),
        r == 1 <==> path_lt(comps_view(b@).skip(i as int), comps_view(a@).skip(i as int)),
        r == 0 <==> comps_view(a@).skip(i as int) == comps_view(b@).skip(i as int),
        r == -1 || r == 0 || r == 1,
    decreases b@.len() - i,
{
    let ghost av = comps_view(a@).skip(i as int);
    let ghost bv = comps_view(b@).skip(i as int);
    if i == b.len() {
        if i == a.len() {
            proof {
                assert(av =~= bv);
                lemma_path_irrefl(av);
            }
            0
        } else {
            proof {
                assert(av.len() > 0 && bv.len() == 0);
                assert(path_lt(bv, av));
                assert(av != bv);
            }
            1
        }
    } else if i == a.len() {
        proof {
            assert(av.len() == 0 && bv.len() > 0);
            assert(path_lt(av, bv));
            assert(av != bv);
        }
        -1
    } else {
        let c = lex_cmp(&a[i], &b[i]);
        proof {
            assert(av.first() == comps_view(a@)[i as int] && av.first() == a@[i as int]@);
            assert(bv.first() == b@[i as int]@);
            assert(av.drop_first() =~= comps_view(a@).skip(i as int + 1));
            assert(bv.drop_first() =~= comps_view(b@).skip(i as int + 1));
        }
        if c == -1 {
            proof {
                assert(path_lt(av, bv));
                lemma_lex_irrefl(av.first());
                assert(!path_lt(bv, av));
                lemma_path_irrefl(av);
                assert(av != bv);
            }
            -1
        } else if c == 1 {
            proof {
                assert(path_lt(bv, av));
                lemma_lex_irrefl(bv.first());
                assert(!path_lt(av, bv));
                lemma_path_irrefl(bv);
                assert(av != bv);
            }
            1
        } else {
            let r = path_cmp_from(a, b, i + 1);
            proof {
                if r == 0 {
                    assert(av =~= seq![av.first()] + av.drop_first());
                    assert(bv =~= seq![bv.first()] + bv.drop_first());
                }
                if av == bv {
                    lemma_path_irrefl(av);
                }
            }
            r
        }
    }
}

/// Compare two byte strings from position `i` on.
fn lex_cmp_from(a: &Vec<u8>, b: &Vec<u8>, i: usize) -> (r: i8)
    requires
        i <= a@.len(),
        i <= b@.len(),
    ensures
        r == -1 <==> lex_lt(a@.skip(i as int), b@.skip(i as int)),
        r == 1 <==> lex_lt(b@.skip(i as int), a@.skip(i as int)),
        r == 0 <==> a@.skip(i as int) == b@.skip(i as int),
        r == -1 || r == 0 || r == 1,
    decreases b@.len() - i,
{
    let ghost av = a@.skip(i as int);
    let ghost bv = b@.skip(i as int);
    if i == b.len() {
        if i == a.len() {
            proof {
                assert(av =~= bv);
                lemma_lex_irrefl(av);
            }
            0
        } else {
            proof {
                assert(path_true(av, bv));
                assert(av != bv);
            }
            1
        }
    } else if i == a.len() {
        proof {
            assert(av.len() == 0 && bv.len() > 0);
            assert(av != bv);
        }
        -1
    } else {
        let x = a[i];
        let y = b[i];
        proof {
            assert(av.first() == a@[i as int] && bv.first() == b@[i as int]);
            assert(av.drop_first() =~= a@.skip(i as int + 1));
            assert(bv.drop_first() =~= b@.skip(i as int + 1));
        }
        if x < y {
            proof {
                lemma_lex_irrefl(av);
                assert(av != bv);
            }
            -1
        } else if x > y {
            proof {
                lemma_lex_irrefl(bv);
                assert(av != bv);
            }
            1
        } else {
            let r = lex_cmp_from(a, b, i + 1);
            proof {
                if r == 0 {
                    assert(av =~= seq![av.first()] + av.drop_first());
                    assert(bv =~= seq![bv.first()] + bv.drop_first());
                }
                if av == bv {
                    lemma_lex_irrefl(av);
                }
            }
            r
        }
    }
}

/// Helper naming the fact that an empty string precedes a non-empty one.
spec fn path_true(av: Seq<u8>, bv: Seq<u8>) -> bool {
    av.len() > 0 && bv.len() == 0 && lex_lt(bv, av)
}

/// Three-way byte-string comparison in lexicographic order.
pub fn lex_cmp(a: &Vec<u8>, b: &Vec<u8>) -> (r: i8)
    ensures
        r == -1 <==> lex_lt(a@, b@),
        r == 1 <==> lex_lt(b@, a@),
        r == 0 <==> a@ == b@,
        r == -1 || r == 0 || r == 1,
{
    let r = lex_cmp_from(a, b, 0);
    proof {
        assert(a@.skip(0) =~= a@);
        assert(b@.skip(0) =~= b@);
    }
    r
}

/// Three-way component-path comparison.
pub fn path_cmp(a: &Vec<Vec<u8>>, b: &Vec<Vec<u8>>) -> (r: i8)
    ensures
        r == -1 <==> path_lt(comps_view(a@), comps_view(b@)),
        r == 1 <==> path_lt(comps_view(b@), comps_view(a@)),
        r == 0 <==> comps_view(a@) == comps_view(b@),
        r == -1 || r == 0 || r == 1,
{
    let r = path_cmp_from(a, b, 0);
    proof {
        assert(comps_view(a@).skip(0) =~= comps_view(a@));
        assert(comps_view(b@).skip(0) =~= comps_view(b@));
    }
    r
}


/// One row of the flattened forest: a normalized component path and the
/// entry attached there, or nothing for a synthesized intermediate
/// directory.
pub struct TreeEntry {
    pub comps: Vec<Vec<u8>>,
    pub node: Option<Node>,
}

/// The component path of a row.
pub open spec fn epath(e: TreeEntry) -> Seq<Seq<u8>> {
    comps_view(e.comps@)
}

/// The attached entry of a row, as a mathematical value.
pub open spec fn enode(e: TreeEntry) -> Option<NodeV> {
    match e.node {
        Some(n) => Some(n@),
        None => None,
    }
}

impl TreeEntry {
    /// The row's own name: the last component of its path.
    pub fn name(&self) -> (r: Vec<u8>)
        requires
            epath(*self).len() > 0,
        ensures
            r@ == epath(*self).last(),
    {
        let c = &self.comps;
        let last = &c[c.len() - 1];
        let r = copy_range(last, 0, last.len());
        proof {
            assert(last@.subrange(0, last@.len() as int) =~= last@);
        }
        r
    }
}

/// A row is well formed when its path is non-empty and every component
/// is well formed.
pub open spec fn entry_ok(e: TreeEntry) -> bool {
    &&& epath(e).len() > 0
    &&& forall|j: int| 0 <= j < epath(e).len() ==> spec_comp_ok(#[trigger] epath(e)[j])
}

/// The flattened forest: rows strictly sorted by path, so the layout is
/// deterministic and independent of insertion order.
pub struct Tree {
    pub entries: Vec<TreeEntry>,
}

impl Tree {
    /// Whether a path is present.
    pub open spec fn contains_path(self, p: Seq<Seq<u8>>) -> bool {
        exists|i: int| 0 <= i < self.entries@.len() && epath(self.entries@[i]) == p
    }

    /// The row index of a present path.
    pub open spec fn index_of(self, p: Seq<Seq<u8>>) -> int {
        choose|i: int| 0 <= i < self.entries@.len() && epath(self.entries@[i]) == p
    }

    /// The entry attached at a present path.
    pub open spec fn node_at(self, p: Seq<Seq<u8>>) -> Option<NodeV> {
        enode(self.entries@[self.index_of(p)])
    }

    /// Whether some row lies strictly below `p`.
    pub open spec fn has_child(self, p: Seq<Seq<u8>>) -> bool {
        exists|i: int|
            0 <= i < self.entries@.len() && epath(self.entries@[i]).len() > p.len() && epath(
                self.entries@[i],
            ).subrange(0, p.len() as int) == p
    }

    /// Rows are well formed and strictly sorted.
    pub open spec fn wf(self) -> bool {
        &&& forall|i: int| 0 <= i < self.entries@.len() ==> entry_ok(#[trigger] self.entries@[i])
        &&& forall|i: int, j: int|
            0 <= i < j < self.entries@.len() ==> path_lt(
                epath(#[trigger] self.entries@[i]),
                epath(#[trigger] self.entries@[j]),
            )
    }

    /// An empty forest.
    pub fn new() -> (r: Tree)
        ensures
            r.wf(),
            r.entries@.len() == 0,
            forall|p: Seq<Seq<u8>>| !r.contains_path(p),
    {
        Tree { entries: Vec::new() }
    }

    /// Distinct rows carry distinct paths.
    pub proof fn lemma_unique(self, i: int, j: int)
        requires
            self.wf(),
            0 <= i < self.entries@.len(),
            0 <= j < self.entries@.len(),
            i != j,
        ensures
            epath(self.entries@[i]) != epath(self.entries@[j]),
    {
        if i < j {
            lemma_path_irrefl(epath(self.entries@[i]));
        } else {
            lemma_path_irrefl(epath(self.entries@[j]));
        }
    }

    /// The row holding path `p` is the one `index_of` names.
    pub proof fn lemma_node_at(self, i: int)
        requires
            self.wf(),
            0 <= i < self.entries@.len(),
        ensures
            self.contains_path(epath(self.entries@[i])),
            self.index_of(epath(self.entries@[i])) == i,
            self.node_at(epath(self.entries@[i])) == enode(self.entries@[i]),
    {
        let p = epath(self.entries@[i]);
        assert(self.contains_path(p));
        let k = self.index_of(p);
        if k != i {
            self.lemma_unique(i, k);
        }
    }

    /// Find the row of a path, if present.
    fn find(&self, comps: &Vec<Vec<u8>>) -> (r: Option<usize>)
        requires
            self.wf(),
        ensures
            match r {
                Some(i) => i < self.entries@.len() && epath(self.entries@[i as int]) == comps_view(
                    comps@,
                ) && self.contains_path(comps_view(comps@)) && self.index_of(comps_view(comps@))
                    == i as int,
                None => !self.contains_path(comps_view(comps@)),
            },
    {
        let n = self.entries.len();
        let mut i: usize = 0;
        while i < n
            invariant
                i <= n,
                n == self.entries@.len(),
                self.wf(),
                forall|j: int|
                    0 <= j < i ==> epath(#[trigger] self.entries@[j]) != comps_view(comps@),
            decreases n - i,
        {
            let c = path_cmp(&self.entries[i].comps, comps);
            if c == 0 {
                proof {
                    self.lemma_node_at(i as int);
                }
                return Some(i);
            }
            proof {
                if epath(self.entries@[i as int]) == comps_view(comps@) {
                    lemma_path_irrefl(comps_view(comps@));
                }
            }
            i = i + 1;
        }
        None
    }

    /// Insert a row for a path that is not yet present, keeping the
    /// strict order; every other row keeps its path and entry.
    fn insert_sorted(&mut self, e: TreeEntry)
        requires
            old(self).wf(),
            entry_ok(e),
            !old(self).contains_path(epath(e)),
        ensures
            final(self).wf(),
            forall|q: Seq<Seq<u8>>|
                final(self).contains_path(q) <==> (old(self).contains_path(q) || q == epath(e)),
            final(self).node_at(epath(e)) == enode(e),
            forall|q: Seq<Seq<u8>>|
                old(self).contains_path(q) ==> final(self).node_at(q) == old(self).node_at(q),
    {
        let n = self.entries.len();
        let mut idx: usize = 0;
        while idx < n
            invariant
                idx <= n,
                n == self.entries@.len(),
                self.wf(),
                *self == *old(self),
                !self.contains_path(epath(e)),
                forall|j: int|
                    0 <= j < idx ==> path_lt(epath(#[trigger] self.entries@[j]), epath(e)),
            ensures
                idx <= self.entries@.len(),
                *self == *old(self),
                forall|j: int|
                    0 <= j < idx ==> path_lt(epath(#[trigger] self.entries@[j]), epath(e)),
                forall|j: int|
                    idx <= j < self.entries@.len() ==> path_lt(
                        epath(e),
                        epath(#[trigger] self.entries@[j]),
                    ),
            decreases n - idx,
        {
            let c = path_cmp(&self.entries[idx].comps, &e.comps);
            proof {
                self.lemma_node_at(idx as int);
                if epath(self.entries@[idx as int]) == epath(e) {
                    assert(self.contains_path(epath(e)));
                }
            }
            if c == 1 {
                proof {
                    assert(path_lt(epath(e), epath(self.entries@[idx as int])));
                    assert forall|j: int|
                        idx <= j < self.entries@.len() implies path_lt(
                        epath(e),
                        epath(#[trigger] self.entries@[j]),
                    ) by {
                        if j > idx {
                            lemma_path_trans(
                                epath(e),
                                epath(self.entries@[idx as int]),
                                epath(self.entries@[j]),
                            );
                        }
                    }
                }
                break ;
            }
            proof {
                assert(path_lt(epath(self.entries@[idx as int]), epath(e)));
            }
            idx = idx + 1;
        }
        let ghost olds = self.entries@;
        let ghost gidx = idx as int;
        self.entries.insert(idx, e);
        proof {
            let news = self.entries@;
            assert(news == olds.insert(gidx, e));
            assert(news.len() == olds.len() + 1);
            assert(forall|k: int| 0 <= k < gidx ==> news[k] == olds[k]);
            assert(news[gidx] == e);
            assert(forall|k: int| gidx < k < news.len() ==> news[k] == olds[k - 1]);
            assert forall|i: int, j: int| 0 <= i < j < news.len() implies path_lt(
                epath(#[trigger] news[i]),
                epath(#[trigger] news[j]),
            ) by {
                if i < gidx && j < gidx {
                } else if i < gidx && j == gidx {
                } else if i == gidx {
                } else if j == gidx {
                } else if i < gidx && j > gidx {
                } else {
                }
            }
            assert(final(self).wf());
            assert forall|q: Seq<Seq<u8>>|
                final(self).contains_path(q) implies (old(self).contains_path(q) || q == epath(
                e,
            )) by {
                let i = choose|i: int| 0 <= i < news.len() && epath(news[i]) == q;
                if i < gidx {
                    assert(epath(olds[i]) == q);
                } else if i > gidx {
                    assert(epath(olds[i - 1]) == q);
                }
            }
            assert forall|q: Seq<Seq<u8>>|
                (old(self).contains_path(q) || q == epath(e)) implies final(self).contains_path(
                q,
            ) by {
                if old(self).contains_path(q) {
                    let i = choose|i: int| 0 <= i < olds.len() && epath(olds[i]) == q;
                    if i < gidx {
                        assert(epath(news[i]) == q);
                    } else {
                        assert(epath(news[i + 1]) == q);
                    }
                } else {
                    assert(epath(news[gidx]) == q);
                }
            }
            final(self).lemma_node_at(gidx);
            assert(final(self).node_at(epath(e)) == enode(e));
            assert forall|q: Seq<Seq<u8>>|
                old(self).contains_path(q) implies final(self).node_at(q) == old(self).node_at(
                q,
            ) by {
                let i = old(self).index_of(q);
                assert(0 <= i < olds.len() && epath(olds[i]) == q);
                old(self).lemma_node_at(i);
                if i < gidx {
                    final(self).lemma_node_at(i);
                    assert(news[i] == olds[i]);
                } else {
                    final(self).lemma_node_at(i + 1);
                    assert(news[i + 1] == olds[i]);
                }
            }
        }
    }
}


/// A proper prefix of `p` that carries a concrete non-directory entry:
/// inserting below it is incompatible.
pub open spec fn spec_prefix_conflict(t: Tree, p: Seq<Seq<u8>>) -> bool {
    exists|k: int|
        1 <= k < p.len() && t.contains_path(p.subrange(0, k)) && t.node_at(
            p.subrange(0, k),
        ) is Some && !(t.node_at(p.subrange(0, k)).unwrap().kind is Dir)
}

/// An incompatible attachment at `p` itself: a differing concrete entry
/// already sits there, or a non-directory would be placed over existing
/// children.
pub open spec fn spec_target_conflict(t: Tree, p: Seq<Seq<u8>>, nv: NodeV) -> bool {
    if t.contains_path(p) && t.node_at(p) is Some {
        t.node_at(p).unwrap() != nv
    } else {
        !(nv.kind is Dir) && t.has_child(p)
    }
}

/// Exactly when attaching `nv` at `p` must be refused.
pub open spec fn spec_push_conflict(t: Tree, p: Seq<Seq<u8>>, nv: NodeV) -> bool {
    p.len() > 0 && (spec_prefix_conflict(t, p) || spec_target_conflict(t, p, nv))
}

/// Copy the first `k` components of a path.
fn prefix_comps(comps: &Vec<Vec<u8>>, k: usize) -> (r: Vec<Vec<u8>>)
    requires
        k <= comps@.len(),
    ensures
        comps_view(r@) == comps_view(comps@).subrange(0, k as int),
{
    let mut r: Vec<Vec<u8>> = Vec::new();
    let mut j: usize = 0;
    while j < k
        invariant
            j <= k,
            k <= comps@.len(),
            r@.len() == j,
            forall|q: int| 0 <= q < j ==> r@[q]@ == comps@[q]@,
        decreases k - j,
    {
        let c = &comps[j];
        let cc = copy_range(c, 0, c.len());
        proof {
            assert(cc@ =~= comps@[j as int]@);
        }
        r.push(cc);
        j = j + 1;
    }
    proof {
        assert(comps_view(r@) =~= comps_view(comps@).subrange(0, k as int));
    }
    r
}

impl Tree {
    /// Whether any row lies strictly below the given path.
    fn scan_child(&self, comps: &Vec<Vec<u8>>) -> (r: bool)
        requires
            self.wf(),
        ensures
            r == self.has_child(comps_view(comps@)),
    {
        let n = self.entries.len();
        let plen = comps.len();
        let mut i: usize = 0;
        while i < n
            invariant
                i <= n,
                n == self.entries@.len(),
                self.wf(),
                plen == comps@.len(),
                forall|j: int|
                    0 <= j < i ==> !(epath(#[trigger] self.entries@[j]).len() > plen && epath(
                        self.entries@[j],
                    ).subrange(0, plen as int) == comps_view(comps@)),
            decreases n - i,
        {
            let e = &self.entries[i];
            if e.comps.len() > plen {
                let mut j: usize = 0;
                let mut all: bool = true;
                while j < plen
                    invariant
                        j <= plen,
                        plen < e.comps@.len(),
                        plen == comps@.len(),
                        e == self.entries@[i as int],
                        all ==> (forall|q: int| 0 <= q < j ==> e.comps@[q]@ == comps@[q]@),
                        !all ==> epath(*e).subrange(0, plen as int) != comps_view(comps@),
                    decreases plen - j,
                {
                    if all {
                        if !bytes_eq(&e.comps[j], &comps[j]) {
                            proof {
                                assert(epath(*e).subrange(0, plen as int)[j as int] != comps_view(
                                    comps@,
                                )[j as int]);
                            }
                            all = false;
                        }
                    }
                    j = j + 1;
                }
                if all {
                    proof {
                        assert(epath(*e).subrange(0, plen as int) =~= comps_view(comps@));
                        assert(self.has_child(comps_view(comps@)));
                    }
                    return true;
                }
            }
            i = i + 1;
        }
        proof {
            assert(!self.has_child(comps_view(comps@)));
        }
        false
    }

    /// Replace the entry attached at row `i`, keeping its path.
    fn set_node_at(&mut self, i: usize, comps: Vec<Vec<u8>>, node: Node)
        requires
            old(self).wf(),
            i < old(self).entries@.len(),
            comps_view(comps@) == epath(old(self).entries@[i as int]),
        ensures
            final(self).wf(),
            forall|q: Seq<Seq<u8>>|
                final(self).contains_path(q) == old(self).contains_path(q),
            final(self).node_at(comps_view(comps@)) == Some(node@),
            forall|q: Seq<Seq<u8>>|
                old(self).contains_path(q) && q != comps_view(comps@) ==> final(self).node_at(q)
                    == old(self).node_at(q),
    {
        let ghost olds = self.entries@;
        let ghost gi = i as int;
        let ghost p = comps_view(comps@);
        let e = TreeEntry { comps, node: Some(node) };
        self.entries.set(i, e);
        proof {
            let news = self.entries@;
            assert(news == olds.update(gi, e));
            assert(news.len() == olds.len());
            assert(forall|k: int| 0 <= k < news.len() && k != gi ==> news[k] == olds[k]);
            assert(epath(news[gi]) == epath(olds[gi]));
            assert(forall|k: int| 0 <= k < news.len() ==> epath(#[trigger] news[k]) == epath(
                olds[k],
            ));
            assert(final(self).wf());
            assert forall|q: Seq<Seq<u8>>|
                final(self).contains_path(q) == old(self).contains_path(q) by {
                if final(self).contains_path(q) {
                    let k = choose|k: int| 0 <= k < news.len() && epath(news[k]) == q;
                    assert(epath(olds[k]) == q);
                }
                if old(self).contains_path(q) {
                    let k = choose|k: int| 0 <= k < olds.len() && epath(olds[k]) == q;
                    assert(epath(news[k]) == q);
                }
            }
            final(self).lemma_node_at(gi);
            assert forall|q: Seq<Seq<u8>>|
                old(self).contains_path(q) && q != p implies final(self).node_at(q) == old(self).node_at(q) by {
                let k = old(self).index_of(q);
                assert(0 <= k < olds.len() && epath(olds[k]) == q);
                old(self).lemma_node_at(k);
                final(self).lemma_node_at(k);
                assert(k != gi);
            }
        }
    }

    /// Attach one entry at a full path, synthesizing every missing
    /// ancestor as a bare intermediate directory. The path is
    /// normalized first; a path that normalizes to nothing leaves the
    /// forest unchanged. Refused, with the forest unchanged, exactly
    /// when a proper prefix carries a concrete non-directory entry,
    /// when a differing concrete entry already sits at the path, or
    /// when a non-directory would cover existing children.
    pub fn push_node(&mut self, path: &Vec<u8>, node: Node) -> (r: Result<(), SqfsError>)
        requires
            old(self).wf(),
        ensures
            final(self).wf(),
            r is Err <==> spec_push_conflict(*old(self), spec_normalize(path@), node@),
            r is Err ==> r.unwrap_err() == SqfsError::PathConflict && *final(self) == *old(self),
            r is Ok && spec_normalize(path@).len() == 0 ==> *final(self) == *old(self),
            r is Ok && spec_normalize(path@).len() > 0 ==> ({
                let p = spec_normalize(path@);
                &&& forall|q: Seq<Seq<u8>>|
                    final(self).contains_path(q) <==> (old(self).contains_path(q) || (exists|k: int|
                        1 <= k <= p.len() && q == p.subrange(0, k)))
                &&& final(self).node_at(p) == Some(node@)
                &&& forall|q: Seq<Seq<u8>>|
                    old(self).contains_path(q) && q != p ==> final(self).node_at(q) == old(self).node_at(q)
                &&& forall|k: int|
                    1 <= k < p.len() && !old(self).contains_path(p.subrange(0, k)) ==> final(self).node_at(p.subrange(0, k)) is None
            }),
    {
        let comps = normalize(path);
        let len = comps.len();
        let ghost p = spec_normalize(path@);
        proof {
            lemma_normalize_ok(path@);
        }
        if len == 0 {
            return Ok(());
        }
        let mut k: usize = 1;
        while k < len
            invariant
                1 <= k <= len,
                len == comps@.len(),
                comps_view(comps@) == p,
                p == spec_normalize(path@),
                self.wf(),
                *self == *old(self),
                forall|j: int|
                    1 <= j < k ==> !(self.contains_path(p.subrange(0, j)) && self.node_at(
                        p.subrange(0, j),
                    ) is Some && !(self.node_at(#[trigger] p.subrange(0, j)).unwrap().kind
                        is Dir)),
            decreases len - k,
        {
            let pref = prefix_comps(&comps, k);
            match self.find(&pref) {
                Some(i) => {
                    proof {
                        self.lemma_node_at(i as int);
                    }
                    match &self.entries[i].node {
                        Some(n) => {
                            if !n.is_dir() {
                                proof {
                                    assert(self.contains_path(p.subrange(0, k as int)));
                                    assert(self.node_at(p.subrange(0, k as int)) == enode(
                                        self.entries@[i as int],
                                    ));
                                    assert(enode(self.entries@[i as int]) == Some(n@));
                                    assert(!(n@.kind is Dir));
                                    assert(spec_prefix_conflict(*self, p));
                                    assert(p.len() > 0);
                                }
                                return Err(SqfsError::PathConflict);
                            }
                        },
                        None => {},
                    }
                },
                None => {},
            }
            k = k + 1;
        }
        proof {
            assert(!spec_prefix_conflict(*old(self), p));
        }
        let target = self.find(&comps);
        let existing_ok: bool = match target {
            Some(i) => {
                match &self.entries[i].node {
                    Some(existing) => {
                        proof {
                            self.lemma_node_at(i as int);
                        }
                        if !node_eq(existing, &node) {
                            proof {
                                assert(spec_target_conflict(*self, p, node@));
                            }
                            return Err(SqfsError::PathConflict);
                        }
                        true
                    },
                    None => false,
                }
            },
            None => false,
        };
        if !existing_ok && !node.is_dir() {
            if self.scan_child(&comps) {
                proof {
                    if target is Some {
                        self.lemma_node_at(target.unwrap() as int);
                    }
                    assert(spec_target_conflict(*self, p, node@));
                }
                return Err(SqfsError::PathConflict);
            }
        }
        proof {
            if target is Some {
                self.lemma_node_at(target.unwrap() as int);
            }
            assert(!spec_target_conflict(*old(self), p, node@));
        }
        let mut k: usize = 1;
        while k < len
            invariant
                1 <= k <= len,
                len == comps@.len(),
                comps_view(comps@) == p,
                p == spec_normalize(path@),
                self.wf(),
                len == p.len(),
                forall|j: int| 0 <= j < p.len() ==> spec_comp_ok(#[trigger] p[j]),
                forall|q: Seq<Seq<u8>>|
                    self.contains_path(q) <==> (old(self).contains_path(q) || (exists|j: int|
                        1 <= j < k && q == p.subrange(0, j))),
                forall|q: Seq<Seq<u8>>|
                    old(self).contains_path(q) ==> self.node_at(q) == old(self).node_at(q),
                forall|j: int|
                    1 <= j < k && !old(self).contains_path(#[trigger] p.subrange(0, j))
                        ==> self.contains_path(p.subrange(0, j)) && self.node_at(
                        p.subrange(0, j),
                    ) is None,
            decreases len - k,
        {
            let pref = prefix_comps(&comps, k);
            let ghost prev = *self;
            match self.find(&pref) {
                Some(_) => {},
                None => {
                    proof {
                        assert forall|j: int|
                            0 <= j < p.subrange(0, k as int).len() implies spec_comp_ok(
                            #[trigger] p.subrange(0, k as int)[j],
                        ) by {
                            assert(p.subrange(0, k as int)[j] == p[j]);
                        }
                    }
                    self.insert_sorted(TreeEntry { comps: pref, node: None });
                },
            }
            k = k + 1;
            proof {
                assert forall|q: Seq<Seq<u8>>|
                    self.contains_path(q) implies (old(self).contains_path(q) || (exists|j: int|
                    1 <= j < k && q == p.subrange(0, j))) by {
                    if prev.contains_path(q) {
                    } else {
                        assert(q == p.subrange(0, k - 1));
                    }
                }
                assert forall|q: Seq<Seq<u8>>|
                    (old(self).contains_path(q) || (exists|j: int|
                        1 <= j < k && q == p.subrange(0, j))) implies self.contains_path(q) by {
                    if !old(self).contains_path(q) {
                        let j = choose|j: int| 1 <= j < k && q == p.subrange(0, j);
                        if j < k - 1 {
                            assert(prev.contains_path(q));
                        }
                    }
                }
            }
        }
        let ghost before_target = *self;
        match self.find(&comps) {
            Some(i) => {
                self.set_node_at(i, comps, node);
            },
            None => {
                self.insert_sorted(TreeEntry { comps, node: Some(node) });
            },
        }
        proof {
            assert forall|q: Seq<Seq<u8>>|
                final(self).contains_path(q) implies (old(self).contains_path(q) || (exists|k: int|
                1 <= k <= p.len() && q == p.subrange(0, k))) by {
                if before_target.contains_path(q) {
                } else {
                    assert(q == p);
                    assert(p.subrange(0, p.len() as int) =~= p);
                }
            }
            assert forall|q: Seq<Seq<u8>>|
                (old(self).contains_path(q) || (exists|k: int|
                    1 <= k <= p.len() && q == p.subrange(0, k))) implies final(self).contains_path(q) by {
                if !old(self).contains_path(q) {
                    let k = choose|k: int| 1 <= k <= p.len() && q == p.subrange(0, k);
                    if k < p.len() {
                        assert(before_target.contains_path(q));
                    } else {
                        assert(q =~= p);
                        assert(before_target.contains_path(p) || true);
                    }
                }
            }
            assert(p.subrange(0, p.len() as int) =~= p);
        }
        Ok(())
    }
}


impl Tree {
    /// Build a forest from a flat list of nodes with full paths, as a
    /// reader hands them out: every node is attached in list order,
    /// ancestors are synthesized as needed, and the first incompatible
    /// entry aborts the build with `PathConflict` and nothing else.
    /// On success the forest holds every listed node at its normalized
    /// path; an empty list always succeeds with an empty forest.
    pub fn from_nodes(nodes: Vec<(Vec<u8>, Node)>) -> (r: Result<Tree, SqfsError>)
        ensures
            nodes@.len() == 0 ==> r is Ok && r.unwrap().entries@.len() == 0,
            r is Ok ==> r.unwrap().wf(),
            r is Ok ==> forall|j: int|
                0 <= j < nodes@.len() && spec_normalize(#[trigger] nodes@[j].0@).len() > 0
                    ==> r.unwrap().contains_path(spec_normalize(nodes@[j].0@))
                    && r.unwrap().node_at(spec_normalize(nodes@[j].0@)) == Some(nodes@[j].1@),
            r is Err ==> r->Err_0 == SqfsError::PathConflict,
    {
        let mut tree = Tree::new();
        let n = nodes.len();
        let mut i: usize = 0;
        while i < n
            invariant
                i <= n,
                n == nodes@.len(),
                tree.wf(),
                n == 0 ==> tree.entries@.len() == 0,
                forall|j: int|
                    0 <= j < i && spec_normalize(#[trigger] nodes@[j].0@).len() > 0
                        ==> tree.contains_path(spec_normalize(nodes@[j].0@)) && tree.node_at(
                        spec_normalize(nodes@[j].0@),
                    ) == Some(nodes@[j].1@),
            decreases n - i,
        {
            let pair = &nodes[i];
            let node = crate::node::node_clone(&pair.1);
            let ghost pre = tree;
            let ghost p = spec_normalize(nodes@[i as int].0@);
            let ghost nv = nodes@[i as int].1@;
            match tree.push_node(&pair.0, node) {
                Ok(_) => {},
                Err(e) => {
                    return Err(e);
                },
            }
            i = i + 1;
            proof {
                assert(!spec_push_conflict(pre, p, nv));
                assert forall|j: int|
                    0 <= j < i && spec_normalize(#[trigger] nodes@[j].0@).len() > 0
                        implies tree.contains_path(spec_normalize(nodes@[j].0@))
                        && tree.node_at(spec_normalize(nodes@[j].0@)) == Some(
                    nodes@[j].1@,
                ) by {
                    let q = spec_normalize(nodes@[j].0@);
                    if j == i - 1 {
                        assert(tree.contains_path(p) && tree.node_at(p) == Some(nv)) by {
                            assert(p.subrange(0, p.len() as int) =~= p);
                        }
                    } else {
                        assert(pre.contains_path(q) && pre.node_at(q) == Some(nodes@[j].1@));
                        if p.len() == 0 {
                            assert(tree == pre);
                        } else if q == p {
                            assert(pre.node_at(p) is Some);
                            assert(!spec_target_conflict(pre, p, nv));
                            assert(nodes@[j].1@ == nv);
                            assert(tree.node_at(p) == Some(nv)) by {
                                assert(p.subrange(0, p.len() as int) =~= p);
                            }
                            assert(tree.contains_path(q));
                        } else {
                            assert(tree.node_at(q) == pre.node_at(q));
                            assert(tree.contains_path(q));
                        }
                    }
                }
            }
        }
        Ok(tree)
    }
}

/// Two strictly sorted path sequences with the same members are equal.
proof fn lemma_sorted_paths_unique(x: Seq<Seq<Seq<u8>>>, y: Seq<Seq<Seq<u8>>>)
    requires
        forall|i: int, j: int| 0 <= i < j < x.len() ==> path_lt(#[trigger] x[i], #[trigger] x[j]),
        forall|i: int, j: int| 0 <= i < j < y.len() ==> path_lt(#[trigger] y[i], #[trigger] y[j]),
        forall|p: Seq<Seq<u8>>| x.contains(p) <==> y.contains(p),
    ensures
        x == y,
    decreases x.len(),
{
    if x.len() == 0 {
        if y.len() > 0 {
            assert(y.contains(y[0]));
            assert(x.contains(y[0]));
        }
        assert(x =~= y);
    } else {
        assert(x.contains(x[0]));
        assert(y.contains(x[0]));
        if y.len() == 0 {
            assert(y.contains(x[0]));
            assert(false);
        }
        if x[0] != y[0] {
            let j = choose|j: int| 0 <= j < y.len() && y[j] == x[0];
            assert(j != 0);
            assert(path_lt(y[0], y[j]));
            assert(y.contains(y[0]));
            assert(x.contains(y[0]));
            let i = choose|i: int| 0 <= i < x.len() && x[i] == y[0];
            assert(i != 0);
            assert(path_lt(x[0], x[i]));
            lemma_path_trans(x[0], y[0], x[0]);
            lemma_path_irrefl(x[0]);
        }
        let xr = x.drop_first();
        let yr = y.drop_first();
        assert forall|p: Seq<Seq<u8>>| xr.contains(p) <==> yr.contains(p) by {
            if xr.contains(p) {
                let k = choose|k: int| 0 <= k < xr.len() && xr[k] == p;
                assert(x[k + 1] == p);
                assert(x.contains(p));
                assert(path_lt(x[0], x[k + 1]));
                assert(y.contains(p));
                let m = choose|m: int| 0 <= m < y.len() && y[m] == p;
                if m == 0 {
                    lemma_path_irrefl(x[0]);
                }
                assert(yr[m - 1] == p);
                assert(yr.contains(p));
            }
            if yr.contains(p) {
                let k = choose|k: int| 0 <= k < yr.len() && yr[k] == p;
                assert(y[k + 1] == p);
                assert(y.contains(p));
                assert(path_lt(y[0], y[k + 1]));
                assert(x.contains(p));
                let m = choose|m: int| 0 <= m < x.len() && x[m] == p;
                if m == 0 {
                    lemma_path_irrefl(y[0]);
                }
                assert(xr[m - 1] == p);
                assert(xr.contains(p));
            }
        }
        assert(forall|i: int, j: int|
            0 <= i < j < xr.len() ==> path_lt(#[trigger] xr[i], #[trigger] xr[j]));
        assert(forall|i: int, j: int|
            0 <= i < j < yr.len() ==> path_lt(#[trigger] yr[i], #[trigger] yr[j]));
        lemma_sorted_paths_unique(xr, yr);
        assert(x.len() == y.len());
        assert forall|i: int| 0 <= i < x.len() implies x[i] == y[i] by {
            if i > 0 {
                assert(x[i] == xr[i - 1]);
                assert(y[i] == yr[i - 1]);
            }
        }
        assert(x =~= y);
    }
}

/// The forest's layout is a function of its contents alone: two
/// well-formed forests holding the same paths with the same attached
/// entries are row-for-row identical, whatever order they were built
/// in. This is what makes re-serialization byte-reproducible.
pub proof fn lemma_layout_deterministic(a: Tree, b: Tree)
    requires
        a.wf(),
        b.wf(),
        forall|p: Seq<Seq<u8>>| a.contains_path(p) <==> b.contains_path(p),
        forall|p: Seq<Seq<u8>>| a.contains_path(p) ==> a.node_at(p) == b.node_at(p),
    ensures
        a.entries@.len() == b.entries@.len(),
        forall|i: int|
            0 <= i < a.entries@.len() ==> epath(#[trigger] a.entries@[i]) == epath(
                b.entries@[i],
            ) && enode(a.entries@[i]) == enode(b.entries@[i]),
{
    let xs = a.entries@.map_values(|e: TreeEntry| epath(e));
    let ys = b.entries@.map_values(|e: TreeEntry| epath(e));
    assert forall|p: Seq<Seq<u8>>| xs.contains(p) <==> ys.contains(p) by {
        if xs.contains(p) {
            let i = choose|i: int| 0 <= i < xs.len() && xs[i] == p;
            assert(epath(a.entries@[i]) == p);
            assert(a.contains_path(p));
            let j = b.index_of(p);
            assert(0 <= j < b.entries@.len() && epath(b.entries@[j]) == p);
            assert(ys[j] == p);
            assert(ys.contains(p));
        }
        if ys.contains(p) {
            let i = choose|i: int| 0 <= i < ys.len() && ys[i] == p;
            assert(epath(b.entries@[i]) == p);
            assert(b.contains_path(p));
            let j = a.index_of(p);
            assert(0 <= j < a.entries@.len() && epath(a.entries@[j]) == p);
            assert(xs[j] == p);
            assert(xs.contains(p));
        }
    }
    assert(forall|i: int, j: int|
        0 <= i < j < xs.len() ==> path_lt(#[trigger] xs[i], #[trigger] xs[j]));
    assert(forall|i: int, j: int|
        0 <= i < j < ys.len() ==> path_lt(#[trigger] ys[i], #[trigger] ys[j]));
    lemma_sorted_paths_unique(xs, ys);
    assert forall|i: int|
        0 <= i < a.entries@.len() implies epath(#[trigger] a.entries@[i]) == epath(
        b.entries@[i],
    ) && enode(a.entries@[i]) == enode(b.entries@[i]) by {
        assert(xs[i] == ys[i]);
        assert(epath(a.entries@[i]) == epath(b.entries@[i]));
        a.lemma_node_at(i);
        b.lemma_node_at(i);
        assert(a.contains_path(epath(a.entries@[i])));
    }
}

} // verus!
