//! B-tree-structured text metric index: an ordered index of `(bytes, chars)`
//! cumulative metrics over a sequence of leaves, supporting position
//! translation between byte and character coordinates.

use vstd::prelude::*;

verus! {

/// Upper bound on the number of children of a node.
pub const MAX: usize = 4;
/// Lower bound on the number of children of a non-root internal node.
pub const MIN: usize = MAX / 2;

/// A `(bytes, chars)` pair: the commutative monoid of text extents under
/// componentwise addition.
#[derive(Clone, Copy, PartialEq, Eq, Structural, Debug)]
pub struct Metric {
    pub bytes: u64,
    pub chars: u64,
}

impl Metric {
    /// The identity element `(0, 0)`.
    pub fn zero() -> (r: Metric)
        ensures
            r.bytes == 0 && r.chars == 0,
    {
        Metric { bytes: 0, chars: 0 }
    }

    /// Componentwise sum.
    pub fn plus(self, rhs: Metric) -> (r: Metric)
        requires
            self.bytes + rhs.bytes <= u64::MAX,
            self.chars + rhs.chars <= u64::MAX,
        ensures
            r.bytes == self.bytes + rhs.bytes,
            r.chars == self.chars + rhs.chars,
    {
        Metric { bytes: self.bytes + rhs.bytes, chars: self.chars + rhs.chars }
    }

    /// Componentwise difference, defined when `rhs <= self` componentwise.
    pub fn minus(self, rhs: Metric) -> (r: Metric)
        requires
            rhs.bytes <= self.bytes,
            rhs.chars <= self.chars,
        ensures
            r.bytes == self.bytes - rhs.bytes,
            r.chars == self.chars - rhs.chars,
    {
        Metric { bytes: self.bytes - rhs.bytes, chars: self.chars - rhs.chars }
    }
}

/// Spec-level constructor for a metric from mathematical integers.
pub open spec fn mk(b: int, c: int) -> Metric {
    Metric { bytes: b as u64, chars: c as u64 }
}

/// Sum of the byte components of a sequence of metrics.
pub open spec fn sum_bytes(s: Seq<Metric>) -> int
    decreases s.len(),
{
    if s.len() == 0 {
        0
    } else {
        sum_bytes(s.drop_last()) + s.last().bytes
    }
}

/// Sum of the char components of a sequence of metrics.
pub open spec fn sum_chars(s: Seq<Metric>) -> int
    decreases s.len(),
{
    if s.len() == 0 {
        0
    } else {
        sum_chars(s.drop_last()) + s.last().chars
    }
}

/// A metric is paired when it is zero in one component exactly when it is
/// zero in the other. Every text chunk has this property: a chunk with no
/// characters holds no bytes. The index keeps it as an invariant of its
/// leaf summaries.
pub open spec fn paired(m: Metric) -> bool {
    (m.bytes == 0) <==> (m.chars == 0)
}

/// All metrics of a sequence are paired.
pub open spec fn all_paired(s: Seq<Metric>) -> bool {
    forall|i: int| 0 <= i < s.len() ==> paired(#[trigger] s[i])
}

pub proof fn lemma_sum_concat(a: Seq<Metric>, b: Seq<Metric>)
    ensures
        sum_bytes(a + b) == sum_bytes(a) + sum_bytes(b),
        sum_chars(a + b) == sum_chars(a) + sum_chars(b),
    decreases b.len(),
{
    if b.len() == 0 {
        assert(a + b =~= a);
    } else {
        lemma_sum_concat(a, b.drop_last());
        assert((a + b).drop_last() =~= a + b.drop_last());
    }
}

pub proof fn lemma_sum_nonneg(s: Seq<Metric>)
    ensures
        sum_bytes(s) >= 0,
        sum_chars(s) >= 0,
    decreases s.len(),
{
    if s.len() > 0 {
        lemma_sum_nonneg(s.drop_last());
    }
}

pub proof fn lemma_sum_take_succ(s: Seq<Metric>, i: int)
    requires
        0 <= i < s.len(),
    ensures
        sum_bytes(s.take(i + 1)) == sum_bytes(s.take(i)) + s[i].bytes,
        sum_chars(s.take(i + 1)) == sum_chars(s.take(i)) + s[i].chars,
{
    assert(s.take(i + 1).drop_last() =~= s.take(i));
    assert(s.take(i + 1).last() == s[i]);
}

pub proof fn lemma_sum_split(s: Seq<Metric>, i: int)
    requires
        0 <= i <= s.len(),
    ensures
        sum_bytes(s) == sum_bytes(s.take(i)) + sum_bytes(s.skip(i)),
        sum_chars(s) == sum_chars(s.take(i)) + sum_chars(s.skip(i)),
{
    assert(s =~= s.take(i) + s.skip(i));
    lemma_sum_concat(s.take(i), s.skip(i));
}

pub proof fn lemma_sum_first(s: Seq<Metric>)
    requires
        s.len() > 0,
    ensures
        sum_bytes(s) == s[0].bytes + sum_bytes(s.drop_first()),
        sum_chars(s) == s[0].chars + sum_chars(s.drop_first()),
{
    assert(s =~= seq![s[0]] + s.drop_first());
    lemma_sum_concat(seq![s[0]], s.drop_first());
    reveal_with_fuel(sum_bytes, 2);
    reveal_with_fuel(sum_chars, 2);
    assert(seq![s[0]].drop_last() =~= Seq::<Metric>::empty());
}

/// A leaf holds the identity of a text chunk; the chunk contents are not
/// modelled here, only the metric summary kept beside it in the parent.
pub struct Leaf {}

impl Leaf {
    /// Make a fresh leaf.
    pub fn new() -> Leaf {
        Leaf {}
    }
}

/// The children of a node: all internal nodes, or all leaves.
pub enum Children {
    Internal(Vec<Internal>),
    Leaf(Vec<Leaf>),
}

/// An internal node: a vector of children and a parallel vector of metric
/// summaries, one summary per child.
pub struct Internal {
    pub metrics: Vec<Metric>,
    pub children: Children,
}

/// The in-order sequence of leaf metrics below a node.
pub open spec fn leaves(n: Internal) -> Seq<Metric>
    decreases n,
{
    match n.children {
        Children::Leaf(_) => n.metrics@,
        Children::Internal(cs) => leaves_of(cs@),
    }
}

/// The in-order sequence of leaf metrics below a sequence of nodes.
pub open spec fn leaves_of(cs: Seq<Internal>) -> Seq<Metric>
    decreases cs,
{
    if cs.len() == 0 {
        Seq::empty()
    } else {
        leaves(cs[0]) + leaves_of(cs.drop_first())
    }
}

/// Well-formedness of a node at height `h`: summary and child counts agree
/// and stay within bounds, every summary equals the metric sum of the
/// subtree below it, and all leaves sit at depth `h`.
pub open spec fn wf_node(n: Internal, h: nat) -> bool
    decreases n,
{
    match n.children {
        Children::Leaf(ls) => {
            &&& h == 0
            &&& n.metrics@.len() == ls@.len()
            &&& 1 <= ls@.len() <= MAX
            &&& all_paired(n.metrics@)
        },
        Children::Internal(cs) => {
            &&& h >= 1
            &&& n.metrics@.len() == cs@.len()
            &&& MIN <= cs@.len() <= MAX
            &&& forall|i: int|
                0 <= i < cs@.len() ==> wf_node(#[trigger] cs@[i], (h - 1) as nat)
            &&& forall|i: int|
                0 <= i < cs@.len() ==> (#[trigger] n.metrics@[i]).bytes == sum_bytes(
                    leaves(cs@[i]),
                ) && n.metrics@[i].chars == sum_chars(leaves(cs@[i]))
        },
    }
}

/// Well-formedness of a root node: well-formed at some height, with totals
/// that fit in the machine word.
pub open spec fn wf(n: Internal) -> bool {
    &&& exists|h: nat| wf_node(n, h)
    &&& sum_bytes(leaves(n)) <= u64::MAX
    &&& sum_chars(leaves(n)) <= u64::MAX
}

pub proof fn lemma_leaves_of_concat(a: Seq<Internal>, b: Seq<Internal>)
    ensures
        leaves_of(a + b) == leaves_of(a) + leaves_of(b),
    decreases a.len(),
{
    if a.len() == 0 {
        assert(a + b =~= b);
        assert(leaves_of(a) + leaves_of(b) =~= leaves_of(b));
    } else {
        assert((a + b).drop_first() =~= a.drop_first() + b);
        lemma_leaves_of_concat(a.drop_first(), b);
        assert((a + b)[0] == a[0]);
        assert(leaves(a[0]) + (leaves_of(a.drop_first()) + leaves_of(b)) =~= (leaves(a[0])
            + leaves_of(a.drop_first())) + leaves_of(b));
    }
}

pub proof fn lemma_leaves_of_take_succ(cs: Seq<Internal>, i: int)
    requires
        0 <= i < cs.len(),
    ensures
        leaves_of(cs.take(i + 1)) == leaves_of(cs.take(i)) + leaves(cs[i]),
{
    assert(cs.take(i + 1) =~= cs.take(i) + seq![cs[i]]);
    lemma_leaves_of_concat(cs.take(i), seq![cs[i]]);
    assert(seq![cs[i]].drop_first() =~= Seq::<Internal>::empty());
    reveal_with_fuel(leaves_of, 2);
    assert(leaves_of(seq![cs[i]]) =~= leaves(cs[i]));
}

/// The leaves below the first `idx` children of a node.
pub open spec fn leaf_prefix(n: Internal, idx: int) -> Seq<Metric> {
    match n.children {
        Children::Leaf(_) => n.metrics@.take(idx),
        Children::Internal(cs) => leaves_of(cs@.take(idx)),
    }
}

/// The leaves below the children of a node from `idx` on.
pub open spec fn leaf_suffix(n: Internal, idx: int) -> Seq<Metric> {
    match n.children {
        Children::Leaf(_) => n.metrics@.skip(idx),
        Children::Internal(cs) => leaves_of(cs@.skip(idx)),
    }
}

pub proof fn lemma_leaf_prefix_suffix(n: Internal, idx: int)
    requires
        0 <= idx <= n.metrics@.len(),
        exists|h: nat| wf_node(n, h),
    ensures
        leaf_prefix(n, idx) + leaf_suffix(n, idx) == leaves(n),
{
    let h = choose|h: nat| wf_node(n, h);
    match n.children {
        Children::Leaf(_) => {
            assert(n.metrics@.take(idx) + n.metrics@.skip(idx) =~= n.metrics@);
        },
        Children::Internal(cs) => {
            assert(cs@.take(idx) + cs@.skip(idx) =~= cs@);
            lemma_leaves_of_concat(cs@.take(idx), cs@.skip(idx));
        },
    }
}

/// Every leaf metric below a well-formed node is paired.
pub proof fn lemma_wf_paired(n: Internal, h: nat)
    requires
        wf_node(n, h),
    ensures
        all_paired(leaves(n)),
    decreases h, 0nat, 0nat,
{
    match n.children {
        Children::Leaf(_) => {},
        Children::Internal(cs) => {
            assert forall|i: int| 0 <= i < leaves(n).len() implies paired(
                #[trigger] leaves(n)[i],
            ) by {
                lemma_wf_paired_of(cs@, (h - 1) as nat, i);
            }
        },
    }
}

proof fn lemma_wf_paired_of(cs: Seq<Internal>, h: nat, i: int)
    requires
        forall|j: int| 0 <= j < cs.len() ==> wf_node(#[trigger] cs[j], h),
        0 <= i < leaves_of(cs).len(),
    ensures
        paired(leaves_of(cs)[i]),
    decreases h, 1nat, cs.len(),
{
    if cs.len() > 0 {
        if i < leaves(cs[0]).len() {
            lemma_wf_paired(cs[0], h);
        } else {
            lemma_wf_paired_of(cs.drop_first(), h, i - leaves(cs[0]).len());
        }
    }
}

/// The coordinate of a metric that a search walks by.
pub open spec fn key(m: Metric, by_bytes: bool) -> int {
    if by_bytes {
        m.bytes as int
    } else {
        m.chars as int
    }
}

/// The walked-coordinate sum of a sequence of metrics.
pub open spec fn keysum(s: Seq<Metric>, by_bytes: bool) -> int {
    if by_bytes {
        sum_bytes(s)
    } else {
        sum_chars(s)
    }
}

/// Byte component of the cumulative metric reached by walking the leaves in
/// order until the requested coordinate `k` is consumed: a leaf is consumed
/// while `k` has not run out and covers its walked coordinate.
pub open spec fn srch_b(l: Seq<Metric>, k: int, by_bytes: bool) -> int
    decreases l.len(),
{
    if l.len() == 0 || k <= 0 {
        0
    } else if k < key(l[0], by_bytes) {
        0
    } else {
        l[0].bytes + srch_b(l.drop_first(), k - key(l[0], by_bytes), by_bytes)
    }
}

/// Char component of the same walk.
pub open spec fn srch_c(l: Seq<Metric>, k: int, by_bytes: bool) -> int
    decreases l.len(),
{
    if l.len() == 0 || k <= 0 {
        0
    } else if k < key(l[0], by_bytes) {
        0
    } else {
        l[0].chars + srch_c(l.drop_first(), k - key(l[0], by_bytes), by_bytes)
    }
}

pub proof fn lemma_srch_bounds(l: Seq<Metric>, k: int, by_bytes: bool)
    ensures
        0 <= srch_b(l, k, by_bytes) <= sum_bytes(l),
        0 <= srch_c(l, k, by_bytes) <= sum_chars(l),
    decreases l.len(),
{
    lemma_sum_nonneg(l);
    if l.len() > 0 {
        lemma_sum_first(l);
        lemma_srch_bounds(l.drop_first(), k - key(l[0], by_bytes), by_bytes);
    }
}

/// Walking past a fully covered group of paired leaves consumes the whole
/// group.
pub proof fn lemma_srch_consume(g: Seq<Metric>, rest: Seq<Metric>, k: int, by_bytes: bool)
    requires
        k >= keysum(g, by_bytes),
        k > 0,
        all_paired(g),
    ensures
        srch_b(g + rest, k, by_bytes) == sum_bytes(g) + srch_b(rest, k - keysum(g, by_bytes), by_bytes),
        srch_c(g + rest, k, by_bytes) == sum_chars(g) + srch_c(rest, k - keysum(g, by_bytes), by_bytes),
    decreases g.len(),
{
    if g.len() == 0 {
        assert(g + rest =~= rest);
        reveal_with_fuel(sum_bytes, 1);
        reveal_with_fuel(sum_chars, 1);
    } else {
        lemma_sum_first(g);
        lemma_sum_nonneg(g.drop_first());
        let k1 = k - key(g[0], by_bytes);
        assert((g + rest).drop_first() =~= g.drop_first() + rest);
        if k1 > 0 {
            assert(all_paired(g.drop_first())) by {
                assert(forall|i: int|
                    0 <= i < g.drop_first().len() ==> g.drop_first()[i] == g[i + 1]);
            }
            lemma_srch_consume(g.drop_first(), rest, k1, by_bytes);
        } else {
            // the group's remaining walked coordinate is zero, so, the
            // leaves being paired, their other coordinate is zero as well
            lemma_srch_paired_zero(g.drop_first(), rest, by_bytes);
        }
    }
}

proof fn lemma_srch_paired_zero(g: Seq<Metric>, rest: Seq<Metric>, by_bytes: bool)
    requires
        keysum(g, by_bytes) == 0,
        all_paired(g),
    ensures
        sum_bytes(g) == 0,
        sum_chars(g) == 0,
        srch_b(g + rest, 0, by_bytes) == 0,
        srch_c(g + rest, 0, by_bytes) == 0,
    decreases g.len(),
{
    if g.len() > 0 {
        lemma_sum_first(g);
        lemma_sum_nonneg(g.drop_first());
        assert(all_paired(g.drop_first())) by {
            assert(forall|i: int| 0 <= i < g.drop_first().len() ==> g.drop_first()[i] == g[i + 1]);
        }
        lemma_srch_paired_zero(g.drop_first(), rest, by_bytes);
    }
}

/// A walk that stops inside a group of leaves never looks past it.
pub proof fn lemma_srch_descend(g: Seq<Metric>, rest: Seq<Metric>, k: int, by_bytes: bool)
    requires
        k < keysum(g, by_bytes),
    ensures
        srch_b(g + rest, k, by_bytes) == srch_b(g, k, by_bytes),
        srch_c(g + rest, k, by_bytes) == srch_c(g, k, by_bytes),
    decreases g.len(),
{
    if g.len() == 0 {
        lemma_sum_nonneg(g);
    } else if k <= 0 {
    } else if k < key(g[0], by_bytes) {
    } else {
        lemma_sum_first(g);
        assert((g + rest).drop_first() =~= g.drop_first() + rest);
        lemma_srch_descend(g.drop_first(), rest, k - key(g[0], by_bytes), by_bytes);
    }
}

/// Spec-level componentwise difference.
pub open spec fn msub(a: Metric, b: Metric) -> Metric {
    mk(a.bytes - b.bytes, a.chars - b.chars)
}

/// The leaf sequence produced by a point insert at char position `m.chars`:
/// the walk skips leaves wholly before the position and splits the leaf that
/// contains it into a leading part of metric `m` (less the skipped prefix)
/// and a trailing remainder; a position at or past the end appends a leaf
/// holding the residual metric.
pub open spec fn ins(l: Seq<Metric>, m: Metric) -> Seq<Metric>
    decreases l.len(),
{
    if l.len() <= 1 {
        if m.chars < l[0].chars {
            seq![m, msub(l[0], m)]
        } else {
            seq![l[0], msub(m, l[0])]
        }
    } else if m.chars < l[0].chars {
        seq![m, msub(l[0], m)] + l.drop_first()
    } else {
        seq![l[0]] + ins(l.drop_first(), msub(m, l[0]))
    }
}

/// Validity of a point insert: the byte coordinate must agree with the char
/// coordinate about where the position falls, and the two pieces of the
/// split must themselves be honest text extents (paired).
pub open spec fn ins_ok(l: Seq<Metric>, m: Metric) -> bool
    decreases l.len(),
{
    if l.len() == 0 {
        false
    } else if m.chars < l[0].chars {
        m.bytes <= l[0].bytes && paired(m) && paired(msub(l[0], m))
    } else if l.len() == 1 {
        m.bytes >= l[0].bytes && paired(msub(m, l[0]))
    } else {
        m.bytes >= l[0].bytes && ins_ok(l.drop_first(), msub(m, l[0]))
    }
}

/// A valid insert adds one leaf, keeps the leaves paired, and either leaves
/// the totals unchanged (a position inside the text) or raises them to `m`
/// (a position at or past the end).
pub proof fn lemma_ins_props(l: Seq<Metric>, m: Metric)
    requires
        ins_ok(l, m),
        all_paired(l),
    ensures
        ins(l, m).len() == l.len() + 1,
        all_paired(ins(l, m)),
        m.chars < sum_chars(l) ==> sum_bytes(ins(l, m)) == sum_bytes(l) && sum_chars(ins(l, m))
            == sum_chars(l),
        m.chars >= sum_chars(l) ==> sum_bytes(ins(l, m)) == m.bytes && sum_chars(ins(l, m))
            == m.chars && m.bytes >= sum_bytes(l),
    decreases l.len(),
{
    lemma_sum_first(l);
    lemma_sum_nonneg(l.drop_first());
    if l.len() == 1 {
        assert(l.drop_first() =~= Seq::<Metric>::empty());
        if m.chars < l[0].chars {
            lemma_two_sums(m, msub(l[0], m));
        } else {
            lemma_two_sums(l[0], msub(m, l[0]));
        }
    } else if m.chars < l[0].chars {
        let s2 = seq![m, msub(l[0], m)];
        lemma_two_sums(m, msub(l[0], m));
        lemma_sum_concat(s2, l.drop_first());
        assert forall|i: int| 0 <= i < ins(l, m).len() implies paired(#[trigger] ins(l, m)[i]) by {
            if i >= 2 {
                assert(ins(l, m)[i] == l[i - 1]);
            }
        }
    } else {
        let m1 = msub(m, l[0]);
        assert(all_paired(l.drop_first())) by {
            assert(forall|i: int| 0 <= i < l.drop_first().len() ==> l.drop_first()[i] == l[i + 1]);
        }
        lemma_ins_props(l.drop_first(), m1);
        lemma_one_sum(l[0]);
        lemma_sum_first_of(seq![l[0]], ins(l.drop_first(), m1));
        assert forall|i: int| 0 <= i < ins(l, m).len() implies paired(#[trigger] ins(l, m)[i]) by {
            if i >= 1 {
                assert(ins(l, m)[i] == ins(l.drop_first(), m1)[i - 1]);
            }
        }
    }
}

/// Sum of a singleton sequence.
proof fn lemma_one_sum(a: Metric)
    ensures
        sum_bytes(seq![a]) == a.bytes,
        sum_chars(seq![a]) == a.chars,
{
    assert(seq![a].drop_last() =~= Seq::<Metric>::empty());
    reveal_with_fuel(sum_bytes, 2);
    reveal_with_fuel(sum_chars, 2);
}

/// Sum of a two-element sequence.
proof fn lemma_two_sums(a: Metric, b: Metric)
    ensures
        sum_bytes(seq![a, b]) == a.bytes + b.bytes,
        sum_chars(seq![a, b]) == a.chars + b.chars,
{
    let s = seq![a, b];
    assert(s.drop_last() =~= seq![a]);
    assert(seq![a].drop_last() =~= Seq::<Metric>::empty());
    reveal_with_fuel(sum_bytes, 3);
    reveal_with_fuel(sum_chars, 3);
}

/// Sum of a concatenation, phrased for a singleton head.
proof fn lemma_sum_first_of(a: Seq<Metric>, b: Seq<Metric>)
    ensures
        sum_bytes(a + b) == sum_bytes(a) + sum_bytes(b),
        sum_chars(a + b) == sum_chars(a) + sum_chars(b),
{
    lemma_sum_concat(a, b);
}

/// Skipping a group of leaves that lie wholly before the insert position.
pub proof fn lemma_ins_skip(g: Seq<Metric>, rest: Seq<Metric>, m: Metric)
    requires
        ins_ok(g + rest, m),
        rest.len() >= 1,
        m.chars >= sum_chars(g),
        sum_bytes(g) <= u64::MAX,
        sum_chars(g) <= u64::MAX,
    ensures
        m.bytes >= sum_bytes(g),
        ins_ok(rest, msub(m, mk(sum_bytes(g), sum_chars(g)))),
        ins(g + rest, m) == g + ins(rest, msub(m, mk(sum_bytes(g), sum_chars(g)))),
    decreases g.len(),
{
    if g.len() == 0 {
        assert(g + rest =~= rest);
        assert(msub(m, mk(sum_bytes(g), sum_chars(g))) == m);
        assert(g + ins(rest, m) =~= ins(rest, m));
    } else {
        lemma_sum_first(g);
        lemma_sum_nonneg(g.drop_first());
        lemma_sum_nonneg(g);
        let m1 = msub(m, g[0]);
        assert((g + rest)[0] == g[0]);
        assert((g + rest).drop_first() =~= g.drop_first() + rest);
        assert((g + rest).len() > 1);
        assert(!(m.chars < g[0].chars));
        lemma_ins_skip(g.drop_first(), rest, m1);
        let inner = msub(m1, mk(sum_bytes(g.drop_first()), sum_chars(g.drop_first())));
        assert(inner == msub(m, mk(sum_bytes(g), sum_chars(g))));
        assert(seq![g[0]] + (g.drop_first() + ins(rest, inner)) =~= g + ins(rest, inner));
    }
}

/// An insert whose position falls strictly inside a group of leaves acts on
/// that group alone.
pub proof fn lemma_ins_descend(g: Seq<Metric>, rest: Seq<Metric>, m: Metric)
    requires
        ins_ok(g + rest, m),
        g.len() >= 1,
        m.chars < sum_chars(g),
    ensures
        ins_ok(g, m),
        ins(g + rest, m) == ins(g, m) + rest,
    decreases g.len(),
{
    lemma_sum_first(g);
    lemma_sum_nonneg(g.drop_first());
    if g.len() == 1 {
        assert(m.chars < g[0].chars);
        if rest.len() == 0 {
            assert(g + rest =~= g);
            assert(ins(g, m) + rest =~= ins(g, m));
        } else {
            assert((g + rest)[0] == g[0]);
            assert((g + rest).drop_first() =~= rest);
            assert(seq![m, msub(g[0], m)] + rest =~= ins(g, m) + rest);
        }
    } else if m.chars < g[0].chars {
        assert((g + rest)[0] == g[0]);
        if rest.len() == 0 {
            assert(g + rest =~= g);
            assert(ins(g, m) + rest =~= ins(g, m));
        } else {
            assert((g + rest).drop_first() =~= g.drop_first() + rest);
            assert(seq![m, msub(g[0], m)] + (g.drop_first() + rest) =~= (seq![m, msub(g[0], m)]
                + g.drop_first()) + rest);
        }
    } else {
        let m1 = msub(m, g[0]);
        assert((g + rest)[0] == g[0]);
        assert((g + rest).drop_first() =~= g.drop_first() + rest);
        lemma_ins_descend(g.drop_first(), rest, m1);
        assert(seq![g[0]] + (ins(g.drop_first(), m1) + rest) =~= (seq![g[0]] + ins(
            g.drop_first(),
            m1,
        )) + rest);
    }
}

/// A well-formed node holds at least one leaf.
pub proof fn lemma_wf_leaves_len(n: Internal, h: nat)
    requires
        wf_node(n, h),
    ensures
        leaves(n).len() >= 1,
    decreases n,
{
    match n.children {
        Children::Leaf(_) => {},
        Children::Internal(cs) => {
            assert(cs@.take(1) =~= seq![cs@[0]]);
            lemma_leaves_of_take_succ(cs@, 0);
            assert(leaves_of(cs@.take(0)) =~= Seq::<Metric>::empty());
            lemma_wf_leaves_len(cs@[0], (h - 1) as nat);
            lemma_leaf_prefix_suffix_of(cs@, 1);
        },
    }
}

proof fn lemma_leaf_prefix_suffix_of(cs: Seq<Internal>, i: int)
    requires
        0 <= i <= cs.len(),
    ensures
        leaves_of(cs) == leaves_of(cs.take(i)) + leaves_of(cs.skip(i)),
{
    assert(cs =~= cs.take(i) + cs.skip(i));
    lemma_leaves_of_concat(cs.take(i), cs.skip(i));
}

/// The leaf suffix from any child short of the end is non-empty.
proof fn lemma_suffix_len(n: Internal, h: nat, idx: int)
    requires
        wf_node(n, h),
        0 <= idx < n.metrics@.len(),
    ensures
        leaf_suffix(n, idx).len() >= 1,
        leaf_suffix(n, n.metrics@.len() as int) =~= Seq::<Metric>::empty(),
{
    lemma_step_sums(n, h, idx);
    match n.children {
        Children::Leaf(_) => {},
        Children::Internal(cs) => {
            lemma_wf_leaves_len(cs@[idx], (h - 1) as nat);
        },
    }
}

/// Replacing one child replaces its leaves in place.
proof fn lemma_leaves_of_update(cs: Seq<Internal>, idx: int, c: Internal)
    requires
        0 <= idx < cs.len(),
    ensures
        leaves_of(cs.update(idx, c)) == leaves_of(cs.take(idx)) + leaves(c) + leaves_of(
            cs.skip(idx + 1),
        ),
        leaves_of(cs) == leaves_of(cs.take(idx)) + leaves(cs[idx]) + leaves_of(cs.skip(idx + 1)),
{
    let cs2 = cs.update(idx, c);
    assert(cs2 =~= cs.take(idx) + seq![c] + cs.skip(idx + 1));
    assert(cs =~= cs.take(idx) + seq![cs[idx]] + cs.skip(idx + 1));
    lemma_leaves_of_concat(cs.take(idx) + seq![c], cs.skip(idx + 1));
    lemma_leaves_of_concat(cs.take(idx), seq![c]);
    lemma_leaves_of_concat(cs.take(idx) + seq![cs[idx]], cs.skip(idx + 1));
    lemma_leaves_of_concat(cs.take(idx), seq![cs[idx]]);
    reveal_with_fuel(leaves_of, 2);
    assert(leaves_of(seq![c]) =~= leaves(c));
    assert(leaves_of(seq![cs[idx]]) =~= leaves(cs[idx]));
}

impl Internal {
    /// The metric sum of the whole subtree.
    pub fn metrics(&self) -> (r: Metric)
        requires
            exists|h: nat| wf_node(*self, h),
            sum_bytes(leaves(*self)) <= u64::MAX,
            sum_chars(leaves(*self)) <= u64::MAX,
        ensures
            r.bytes == sum_bytes(leaves(*self)),
            r.chars == sum_chars(leaves(*self)),
    {
        let ghost ht = choose|h: nat| wf_node(*self, h);
        let ghost lvs = leaves(*self);
        let mut sum = Metric::zero();
        let mut idx: usize = 0;
        let n = self.metrics.len();
        proof {
            assert(leaf_prefix(*self, 0) =~= Seq::<Metric>::empty());
        }
        while idx < n
            invariant
                n == self.metrics@.len(),
                0 <= idx <= n,
                exists|h: nat| wf_node(*self, h),
                sum_bytes(lvs) <= u64::MAX,
                sum_chars(lvs) <= u64::MAX,
                lvs == leaves(*self),
                sum.bytes == sum_bytes(leaf_prefix(*self, idx as int)),
                sum.chars == sum_chars(leaf_prefix(*self, idx as int)),
            decreases n - idx,
        {
            proof {
                let h = choose|h: nat| wf_node(*self, h);
                lemma_step_sums(*self, h, idx as int);
                lemma_leaf_prefix_suffix(*self, idx as int + 1);
                lemma_sum_concat(leaf_prefix(*self, idx as int + 1), leaf_suffix(*self, idx as int + 1));
                lemma_sum_nonneg(leaf_suffix(*self, idx as int + 1));
            }
            sum = sum.plus(self.metrics[idx]);
            idx = idx + 1;
        }
        proof {
            lemma_leaf_prefix_suffix(*self, n as int);
            assert(leaf_suffix(*self, n as int) =~= Seq::<Metric>::empty());
            assert(lvs =~= leaf_prefix(*self, n as int));
        }
        sum
    }
}

impl Internal {
    /// Cumulative metric at byte coordinate `bytes`: the sum of the leaves
    /// walked until the coordinate is consumed.
    pub fn search_byte(&self, bytes: u64) -> (r: Metric)
        requires
            wf(*self),
        ensures
            r.bytes == srch_b(leaves(*self), bytes as int, true),
            r.chars == srch_c(leaves(*self), bytes as int, true),
    {
        let ghost ht = choose|h: nat| wf_node(*self, h);
        self.search_impl(bytes, true, Ghost(ht))
    }

    /// Cumulative metric at char coordinate `chars`.
    pub fn search_char(&self, chars: u64) -> (r: Metric)
        requires
            wf(*self),
        ensures
            r.bytes == srch_b(leaves(*self), chars as int, false),
            r.chars == srch_c(leaves(*self), chars as int, false),
    {
        let ghost ht = choose|h: nat| wf_node(*self, h);
        self.search_impl(chars, false, Ghost(ht))
    }

    fn search_impl(&self, needle0: u64, by_bytes: bool, Ghost(h): Ghost<nat>) -> (r: Metric)
        requires
            wf_node(*self, h),
            sum_bytes(leaves(*self)) <= u64::MAX,
            sum_chars(leaves(*self)) <= u64::MAX,
        ensures
            r.bytes == srch_b(leaves(*self), needle0 as int, by_bytes),
            r.chars == srch_c(leaves(*self), needle0 as int, by_bytes),
        decreases h,
    {
        let ghost lvs = leaves(*self);
        let mut needle = needle0;
        let mut sum = Metric::zero();
        let mut idx: usize = 0;
        let n = self.metrics.len();
        proof {
            assert(leaf_prefix(*self, 0) =~= Seq::<Metric>::empty());
            lemma_leaf_prefix_suffix(*self, 0);
            assert(leaf_suffix(*self, 0) =~= lvs);
        }
        while idx < n && needle > 0
            invariant
                n == self.metrics@.len(),
                0 <= idx <= n,
                wf_node(*self, h),
                sum_bytes(lvs) <= u64::MAX,
                sum_chars(lvs) <= u64::MAX,
                lvs == leaves(*self),
                sum.bytes == sum_bytes(leaf_prefix(*self, idx as int)),
                sum.chars == sum_chars(leaf_prefix(*self, idx as int)),
                needle == needle0 - keysum(leaf_prefix(*self, idx as int), by_bytes),
                srch_b(lvs, needle0 as int, by_bytes) == sum_bytes(leaf_prefix(*self, idx as int))
                    + srch_b(leaf_suffix(*self, idx as int), needle as int, by_bytes),
                srch_c(lvs, needle0 as int, by_bytes) == sum_chars(leaf_prefix(*self, idx as int))
                    + srch_c(leaf_suffix(*self, idx as int), needle as int, by_bytes),
            decreases n - idx,
        {
            let m = self.metrics[idx];
            let pos = if by_bytes {
                m.bytes
            } else {
                m.chars
            };
            proof {
                lemma_step_sums(*self, h, idx as int);
            }
            if needle < pos {
                match &self.children {
                    Children::Internal(cs) => {
                        proof {
                            lemma_srch_descend(
                                leaves(cs@[idx as int]),
                                leaf_suffix(*self, idx as int + 1),
                                needle as int,
                                by_bytes,
                            );
                            lemma_srch_bounds(leaves(cs@[idx as int]), needle as int, by_bytes);
                            lemma_sum_nonneg(leaf_prefix(*self, idx as int));
                            lemma_leaf_prefix_suffix(*self, idx as int);
                            lemma_sum_concat(
                                leaf_prefix(*self, idx as int),
                                leaf_suffix(*self, idx as int),
                            );
                            lemma_sum_first(leaf_suffix(*self, idx as int));
                            lemma_sum_nonneg(leaf_suffix(*self, idx as int + 1));
                            lemma_sum_concat(
                                leaves(cs@[idx as int]),
                                leaf_suffix(*self, idx as int + 1),
                            );
                        }
                        let child = cs[idx].search_impl(needle, by_bytes, Ghost((h - 1) as nat));
                        return sum.plus(child);
                    },
                    Children::Leaf(_) => {
                        return sum;
                    },
                }
            }
            proof {
                let suf = leaf_suffix(*self, idx as int);
                let suf1 = leaf_suffix(*self, idx as int + 1);
                match &self.children {
                    Children::Leaf(_) => {
                        assert(suf[0] == m);
                        assert(suf.drop_first() =~= suf1);
                        reveal_with_fuel(sum_bytes, 2);
                        reveal_with_fuel(sum_chars, 2);
                    },
                    Children::Internal(cs) => {
                        let g = leaves(cs@[idx as int]);
                        lemma_wf_paired(cs@[idx as int], (h - 1) as nat);
                        lemma_srch_consume(g, suf1, needle as int, by_bytes);
                        assert(g + suf1 =~= suf);
                    },
                }
                lemma_leaf_prefix_suffix(*self, idx as int + 1);
                lemma_sum_concat(leaf_prefix(*self, idx as int + 1), leaf_suffix(*self, idx as int + 1));
                lemma_sum_nonneg(leaf_suffix(*self, idx as int + 1));
                lemma_sum_nonneg(leaf_prefix(*self, idx as int + 1));
            }
            sum = sum.plus(m);
            needle = needle - pos;
            idx = idx + 1;
        }
        proof {
            if needle == 0 {
            } else {
                assert(idx == n);
                assert(leaf_suffix(*self, n as int) =~= Seq::<Metric>::empty());
            }
        }
        sum
    }
}

impl Internal {
    /// Split a leaf in two at `needle`: the leaf at `idx` becomes `needle`
    /// and a new leaf of the remainder is inserted after it. When the node
    /// already holds `MAX` leaves it is split and the right half returned.
    fn insert_leaf(
        children: &mut Vec<Leaf>,
        metrics: &mut Vec<Metric>,
        idx: usize,
        needle: Metric,
    ) -> (r: Option<Internal>)
        requires
            old(metrics)@.len() == old(children)@.len(),
            1 <= old(children)@.len() <= MAX,
            idx < old(children)@.len(),
            all_paired(old(metrics)@),
            needle.bytes <= old(metrics)@[idx as int].bytes,
            needle.chars < old(metrics)@[idx as int].chars,
            paired(needle),
            paired(msub(old(metrics)@[idx as int], needle)),
        ensures
            ({
                let newm = old(metrics)@.take(idx as int) + seq![
                    needle,
                    msub(old(metrics)@[idx as int], needle),
                ] + old(metrics)@.skip(idx as int + 1);
                match r {
                    None => {
                        &&& final(metrics)@ == newm
                        &&& final(children)@.len() == final(metrics)@.len()
                        &&& final(metrics)@.len() == old(metrics)@.len() + 1
                        &&& final(metrics)@.len() <= MAX
                        &&& all_paired(final(metrics)@)
                    },
                    Some(right) => {
                        &&& wf_node(right, 0)
                        &&& final(children)@.len() == final(metrics)@.len()
                        &&& 2 <= final(metrics)@.len() <= 3
                        &&& all_paired(final(metrics)@)
                        &&& final(metrics)@ + right.metrics@ == newm
                    },
                }
            }),
    {
        let len = children.len();
        let new_metric = metrics[idx].minus(needle);
        metrics[idx] = needle;
        let idx1 = idx + 1;
        if len < MAX {
            metrics.insert(idx1, new_metric);
            children.insert(idx1, Leaf {});
            proof {
                let newm = old(metrics)@.take(idx as int) + seq![
                    needle,
                    msub(old(metrics)@[idx as int], needle),
                ] + old(metrics)@.skip(idx as int + 1);
                assert(metrics@ =~= newm);
            }
            None
        } else {
            let middle = MAX / 2;
            let mut right_metrics = metrics.split_off(middle);
            let mut right_children = children.split_off(middle);
            if idx1 < middle {
                metrics.insert(idx1, new_metric);
                children.insert(idx1, Leaf {});
            } else {
                right_metrics.insert(idx1 - middle, new_metric);
                right_children.insert(idx1 - middle, Leaf {});
            }
            let right = Internal { metrics: right_metrics, children: Children::Leaf(right_children) };
            proof {
                let newm = old(metrics)@.take(idx as int) + seq![
                    needle,
                    msub(old(metrics)@[idx as int], needle),
                ] + old(metrics)@.skip(idx as int + 1);
                assert(metrics@ + right.metrics@ =~= newm);
                assert(all_paired(metrics@));
                assert(all_paired(right.metrics@));
            }
            Some(right)
        }
    }

    /// Append a trailing leaf of the given metric, splitting the node when
    /// it is already full.
    fn push_leaf(children: &mut Vec<Leaf>, metrics: &mut Vec<Metric>, metric: Metric) -> (r:
        Option<Internal>)
        requires
            old(metrics)@.len() == old(children)@.len(),
            1 <= old(children)@.len() <= MAX,
            all_paired(old(metrics)@),
            paired(metric),
        ensures
            ({
                let newm = old(metrics)@.push(metric);
                match r {
                    None => {
                        &&& final(metrics)@ == newm
                        &&& final(children)@.len() == final(metrics)@.len()
                        &&& final(metrics)@.len() == old(metrics)@.len() + 1
                        &&& final(metrics)@.len() <= MAX
                        &&& all_paired(final(metrics)@)
                    },
                    Some(right) => {
                        &&& wf_node(right, 0)
                        &&& final(children)@.len() == final(metrics)@.len()
                        &&& 1 <= final(metrics)@.len() <= MAX
                        &&& all_paired(final(metrics)@)
                        &&& final(metrics)@ + right.metrics@ == newm
                    },
                }
            }),
    {
        let len = children.len();
        if len < MAX {
            metrics.push(metric);
            children.push(Leaf {});
            None
        } else {
            let mut right_metrics: Vec<Metric> = Vec::new();
            right_metrics.push(metric);
            let mut right_children: Vec<Leaf> = Vec::new();
            right_children.push(Leaf {});
            let right = Internal { metrics: right_metrics, children: Children::Leaf(right_children) };
            proof {
                assert(metrics@ + right.metrics@ =~= old(metrics)@.push(metric));
            }
            Some(right)
        }
    }

    /// Place a freshly split-off sibling after child `idx`, refreshing the
    /// summary of the child it came from; split this node when full.
    fn insert_internal(
        children: &mut Vec<Internal>,
        metrics: &mut Vec<Metric>,
        idx: usize,
        new_child: Internal,
        Ghost(hc): Ghost<nat>,
    ) -> (r: Option<Internal>)
        requires
            old(metrics)@.len() == old(children)@.len(),
            1 <= old(children)@.len() <= MAX,
            idx < old(children)@.len(),
            forall|i: int|
                0 <= i < old(children)@.len() ==> wf_node(#[trigger] old(children)@[i], hc),
            forall|i: int|
                0 <= i < old(children)@.len() && i != idx ==> (#[trigger] old(metrics)@[i]).bytes
                    == sum_bytes(leaves(old(children)@[i])) && old(metrics)@[i].chars == sum_chars(
                    leaves(old(children)@[i]),
                ),
            wf_node(new_child, hc),
            sum_bytes(leaves(old(children)@[idx as int])) <= u64::MAX,
            sum_chars(leaves(old(children)@[idx as int])) <= u64::MAX,
            sum_bytes(leaves(new_child)) <= u64::MAX,
            sum_chars(leaves(new_child)) <= u64::MAX,
        ensures
            ({
                let newcs = old(children)@.take(idx as int + 1) + seq![new_child] + old(
                    children,
                )@.skip(idx as int + 1);
                match r {
                    None => {
                        &&& final(children)@ == newcs
                        &&& final(metrics)@.len() == final(children)@.len()
                        &&& final(children)@.len() == old(children)@.len() + 1
                        &&& final(children)@.len() <= MAX
                        &&& forall|i: int|
                            0 <= i < final(children)@.len() ==> wf_node(
                                #[trigger] final(children)@[i],
                                hc,
                            )
                        &&& forall|i: int|
                            0 <= i < final(children)@.len() ==> (#[trigger] final(metrics)@[i]).bytes
                                == sum_bytes(leaves(final(children)@[i])) && final(metrics)@[i].chars
                                == sum_chars(leaves(final(children)@[i]))
                    },
                    Some(right) => {
                        &&& wf_node(right, (hc + 1) as nat)
                        &&& final(metrics)@.len() == final(children)@.len()
                        &&& 2 <= final(children)@.len() <= MAX
                        &&& forall|i: int|
                            0 <= i < final(children)@.len() ==> wf_node(
                                #[trigger] final(children)@[i],
                                hc,
                            )
                        &&& forall|i: int|
                            0 <= i < final(children)@.len() ==> (#[trigger] final(metrics)@[i]).bytes
                                == sum_bytes(leaves(final(children)@[i])) && final(metrics)@[i].chars
                                == sum_chars(leaves(final(children)@[i]))
                        &&& leaves_of(final(children)@) + leaves(right) == leaves_of(newcs)
                    },
                }
            }),
    {
        let len = children.len();
        let cm = children[idx].metrics();
        metrics[idx] = cm;
        let idx1 = idx + 1;
        let ghost newcs = old(children)@.take(idx as int + 1) + seq![new_child] + old(
            children,
        )@.skip(idx as int + 1);
        if len < MAX {
            let nm = new_child.metrics();
            metrics.insert(idx1, nm);
            children.insert(idx1, new_child);
            proof {
                assert(children@ =~= newcs);
            }
            None
        } else {
            let middle = MAX / 2;
            let mut right_metrics = metrics.split_off(middle);
            let mut right_children = children.split_off(middle);
            if idx1 < middle {
                let nm = new_child.metrics();
                metrics.insert(idx1, nm);
                children.insert(idx1, new_child);
            } else {
                let nm = new_child.metrics();
                right_metrics.insert(idx1 - middle, nm);
                right_children.insert(idx1 - middle, new_child);
            }
            let right = Internal {
                metrics: right_metrics,
                children: Children::Internal(right_children),
            };
            proof {
                assert(children@ + right.children->Internal_0@ =~= newcs);
                lemma_leaves_of_concat(children@, right.children->Internal_0@);
                assert(wf_node(right, (hc + 1) as nat));
            }
            Some(right)
        }
    }
}

impl Internal {
    /// Insert a leaf boundary at char position `needle.chars`, splitting the
    /// leaf that contains it; a position at or past the end appends. The
    /// leaf sequence afterwards is exactly `ins` of the one before.
    pub fn insert(&mut self, needle: Metric)
        requires
            wf(*old(self)),
            ins_ok(leaves(*old(self)), needle),
        ensures
            wf(*final(self)),
            leaves(*final(self)) == ins(leaves(*old(self)), needle),
    {
        let ghost h = choose|h: nat| wf_node(*old(self), h);
        proof {
            lemma_wf_paired(*old(self), h);
            lemma_ins_props(leaves(*old(self)), needle);
        }
        let r = self.insert_impl(needle, Ghost(h));
        match r {
            None => {},
            Some(right) => {
                let mut left = Internal { metrics: Vec::new(), children: Children::Leaf(Vec::new()) };
                core::mem::swap(self, &mut left);
                proof {
                    lemma_wf_leaves_len(left, h);
                    lemma_wf_leaves_len(right, h);
                    lemma_sum_concat(leaves(left), leaves(right));
                    lemma_sum_nonneg(leaves(left));
                    lemma_sum_nonneg(leaves(right));
                }
                let lm = left.metrics();
                let rm = right.metrics();
                let mut ms: Vec<Metric> = Vec::new();
                ms.push(lm);
                ms.push(rm);
                let mut cs: Vec<Internal> = Vec::new();
                cs.push(left);
                cs.push(right);
                let ghost gl = left;
                let ghost gr = right;
                *self = Internal { metrics: ms, children: Children::Internal(cs) };
                proof {
                    assert(self.children->Internal_0@ =~= seq![gl, gr]);
                    assert(leaves_of(seq![gr]) =~= leaves(gr)) by {
                        reveal_with_fuel(leaves_of, 2);
                        assert(seq![gr].drop_first() =~= Seq::<Internal>::empty());
                    }
                    assert(leaves_of(seq![gl, gr]) =~= leaves(gl) + leaves_of(seq![gr])) by {
                        assert(seq![gl, gr].drop_first() =~= seq![gr]);
                    }
                    assert(leaves(*self) =~= leaves(gl) + leaves(gr));
                    assert(wf_node(*self, (h + 1) as nat));
                }
            },
        }
    }

    #[verifier::rlimit(80)]
    fn insert_impl(&mut self, needle0: Metric, Ghost(h): Ghost<nat>) -> (r: Option<Internal>)
        requires
            wf_node(*old(self), h),
            ins_ok(leaves(*old(self)), needle0),
            sum_bytes(leaves(*old(self))) <= u64::MAX,
            sum_chars(leaves(*old(self))) <= u64::MAX,
        ensures
            match r {
                None => wf_node(*final(self), h) && leaves(*final(self)) == ins(
                    leaves(*old(self)),
                    needle0,
                ),
                Some(right) => wf_node(*final(self), h) && wf_node(right, h) && leaves(
                    *final(self),
                ) + leaves(right) == ins(leaves(*old(self)), needle0),
            },
        decreases h,
    {
        let ghost l0 = leaves(*old(self));
        let n = self.metrics.len();
        proof {
            match self.children {
                Children::Leaf(_) => {},
                Children::Internal(_) => {},
            }
            assert(n >= 1);
            assert(leaf_prefix(*self, 0) =~= Seq::<Metric>::empty());
            lemma_leaf_prefix_suffix(*self, 0);
            assert(leaf_suffix(*self, 0) =~= l0);
        }
        let mut idx: usize = 0;
        let mut ndl = needle0;
        while idx < n - 1 && self.metrics[idx].chars <= ndl.chars
            invariant
                *self == *old(self),
                wf_node(*self, h),
                n == self.metrics@.len(),
                1 <= n,
                0 <= idx <= n - 1,
                l0 == leaves(*self),
                sum_bytes(l0) <= u64::MAX,
                sum_chars(l0) <= u64::MAX,
                ins_ok(leaf_suffix(*self, idx as int), ndl),
                leaf_suffix(*self, idx as int).len() >= 1,
                ins(l0, needle0) == leaf_prefix(*self, idx as int) + ins(
                    leaf_suffix(*self, idx as int),
                    ndl,
                ),
            decreases n - idx,
        {
            proof {
                lemma_step_sums(*self, h, idx as int);
                lemma_suffix_len(*self, h, idx as int + 1);
                let suf = leaf_suffix(*self, idx as int);
                let suf1 = leaf_suffix(*self, idx as int + 1);
                let g: Seq<Metric> = match &self.children {
                    Children::Leaf(_) => seq![self.metrics@[idx as int]],
                    Children::Internal(cs) => leaves(cs@[idx as int]),
                };
                assert(suf =~= g + suf1);
                assert(keysum(g, false) == self.metrics@[idx as int].chars as int) by {
                    match self.children {
                        Children::Leaf(_) => {
                            lemma_one_sum(self.metrics@[idx as int]);
                        },
                        Children::Internal(_) => {},
                    }
                }
                assert(sum_bytes(g) == self.metrics@[idx as int].bytes as int) by {
                    match self.children {
                        Children::Leaf(_) => {
                            lemma_one_sum(self.metrics@[idx as int]);
                        },
                        Children::Internal(_) => {},
                    }
                }
                lemma_ins_skip(g, suf1, ndl);
                assert(leaf_prefix(*self, idx as int + 1) =~= leaf_prefix(*self, idx as int) + g)
                    by {
                    match self.children {
                        Children::Leaf(_) => {},
                        Children::Internal(cs) => {
                            lemma_leaves_of_take_succ(cs@, idx as int);
                        },
                    }
                }
                assert((leaf_prefix(*self, idx as int) + g) + ins(
                    suf1,
                    msub(ndl, self.metrics@[idx as int]),
                ) =~= leaf_prefix(*self, idx as int) + (g + ins(
                    suf1,
                    msub(ndl, self.metrics@[idx as int]),
                )));
            }
            ndl = ndl.minus(self.metrics[idx]);
            idx = idx + 1;
        }
        let m_idx = self.metrics[idx];
        let in_range = ndl.chars < m_idx.chars;
        let ghost suf = leaf_suffix(*self, idx as int);
        let ghost suf1 = leaf_suffix(*self, idx as int + 1);
        let ghost pfx = leaf_prefix(*self, idx as int);
        proof {
            lemma_step_sums(*self, h, idx as int);
            if idx == n - 1 {
                lemma_suffix_len(*self, h, idx as int);
                assert(leaf_suffix(*self, n as int) =~= Seq::<Metric>::empty());
            }
        }
        match &mut self.children {
            Children::Leaf(ls) => {
                proof {
                    assert(suf =~= self.metrics@.skip(idx as int));
                    assert(suf[0] == m_idx);
                }
                let r = if in_range {
                    proof {
                        assert(ins(suf, ndl) =~= seq![ndl, msub(m_idx, ndl)] + suf.skip(1));
                        assert(self.metrics@.take(idx as int) + seq![ndl, msub(m_idx, ndl)]
                            + self.metrics@.skip(idx as int + 1) =~= pfx + ins(suf, ndl));
                    }
                    Self::insert_leaf(ls, &mut self.metrics, idx, ndl)
                } else {
                    proof {
                        assert(idx == n - 1);
                        assert(suf =~= seq![m_idx]);
                        assert(ins(suf, ndl) =~= seq![m_idx, msub(ndl, m_idx)]);
                        assert(self.metrics@.push(msub(ndl, m_idx)) =~= pfx + ins(suf, ndl));
                    }
                    let resid = ndl.minus(m_idx);
                    Self::push_leaf(ls, &mut self.metrics, resid)
                };
                proof {
                    match &r {
                        None => {
                            assert(wf_node(*self, h));
                            assert(leaves(*self) == ins(l0, needle0));
                        },
                        Some(right) => {
                            assert(wf_node(*self, h));
                            assert(leaves(*self) + leaves(*right) == ins(l0, needle0));
                        },
                    }
                }
                r
            },
            Children::Internal(cs) => {
                let ghost oldcs = cs@;
                let ghost g = leaves(cs@[idx as int]);
                proof {
                    assert(suf =~= g + suf1);
                    if in_range {
                        lemma_ins_descend(g, suf1, ndl);
                    } else {
                        assert(idx == n - 1);
                        assert(suf1 =~= Seq::<Metric>::empty());
                        assert(g + suf1 =~= g);
                    }
                    assert(ins_ok(g, ndl));
                    lemma_wf_paired(oldcs[idx as int], (h - 1) as nat);
                    lemma_ins_props(g, ndl);
                }
                let sub = cs[idx].insert_impl(ndl, Ghost((h - 1) as nat));
                match sub {
                    None => {
                        proof {
                            lemma_leaves_of_update(oldcs, idx as int, cs@[idx as int]);
                        }
                        if !in_range {
                            let cm = cs[idx].metrics();
                            self.metrics[idx] = cm;
                        }
                        proof {
                            let csn = cs@;
                            assert(leaves_of(csn) =~= pfx + ins(g, ndl) + suf1);
                            assert(pfx + ins(g, ndl) + suf1 =~= pfx + (ins(g, ndl) + suf1));
                            if in_range {
                                assert(ins(g, ndl) + suf1 =~= ins(suf, ndl));
                            } else {
                                assert(ins(g, ndl) + suf1 =~= ins(g, ndl));
                                assert(ins(suf, ndl) =~= ins(g, ndl));
                            }
                            assert(leaves(*self) == ins(l0, needle0));
                            assert forall|i: int| 0 <= i < csn.len() implies wf_node(
                                #[trigger] csn[i],
                                (h - 1) as nat,
                            ) by {}
                            assert(wf_node(*self, h));
                        }
                        None
                    },
                    Some(new) => {
                        let ghost child1 = cs@[idx as int];
                        proof {
                            lemma_leaves_of_update(oldcs, idx as int, cs@[idx as int]);
                            lemma_wf_leaves_len(child1, (h - 1) as nat);
                            lemma_wf_leaves_len(new, (h - 1) as nat);
                            lemma_sum_concat(leaves(child1), leaves(new));
                            lemma_sum_nonneg(leaves(child1));
                            lemma_sum_nonneg(leaves(new));
                            lemma_sum_nonneg(pfx);
                            lemma_sum_nonneg(suf1);
                            lemma_sum_concat(pfx, ins(g, ndl));
                            lemma_sum_concat(pfx + ins(g, ndl), suf1);
                            if in_range {
                                assert(ins(g, ndl) + suf1 =~= ins(suf, ndl));
                            } else {
                                assert(ins(suf, ndl) =~= ins(g, ndl));
                                assert(ins(g, ndl) + suf1 =~= ins(g, ndl));
                            }
                            assert(pfx + (ins(g, ndl) + suf1) =~= pfx + ins(g, ndl) + suf1);
                            assert(sum_bytes(ins(g, ndl)) <= u64::MAX);
                            assert(sum_chars(ins(g, ndl)) <= u64::MAX);
                            assert(leaves(child1) + leaves(new) == ins(g, ndl));
                        }
                        let rr = Self::insert_internal(
                            cs,
                            &mut self.metrics,
                            idx,
                            new,
                            Ghost((h - 1) as nat),
                        );
                        proof {
                            let newcs = oldcs.update(idx as int, child1).take(idx as int + 1)
                                + seq![new] + oldcs.update(idx as int, child1).skip(idx as int + 1);
                            assert(oldcs.update(idx as int, child1).take(idx as int + 1) =~= oldcs
                                .take(idx as int).push(child1));
                            assert(oldcs.update(idx as int, child1).skip(idx as int + 1) =~= oldcs
                                .skip(idx as int + 1));
                            assert(newcs =~= oldcs.take(idx as int) + seq![child1, new] + oldcs.skip(
                                idx as int + 1,
                            ));
                            lemma_leaves_of_concat(
                                oldcs.take(idx as int) + seq![child1, new],
                                oldcs.skip(idx as int + 1),
                            );
                            lemma_leaves_of_concat(oldcs.take(idx as int), seq![child1, new]);
                            assert(seq![child1, new].drop_first() =~= seq![new]);
                            assert(seq![new].drop_first() =~= Seq::<Internal>::empty());
                            reveal_with_fuel(leaves_of, 3);
                            assert(leaves_of(seq![child1, new]) =~= leaves(child1) + leaves(new));
                            assert(leaves_of(newcs) =~= pfx + (leaves(child1) + leaves(new))
                                + suf1);
                            assert(pfx + (leaves(child1) + leaves(new)) + suf1 =~= pfx + ins(
                                g,
                                ndl,
                            ) + suf1);
                            assert(leaves_of(newcs) == ins(l0, needle0));
                        }
                        match rr {
                            None => {
                                proof {
                                    assert(wf_node(*self, h));
                                    assert(leaves(*self) == ins(l0, needle0));
                                }
                                None
                            },
                            Some(right) => {
                                proof {
                                    assert(wf_node(*self, h));
                                    assert(wf_node(right, h));
                                    assert(leaves(*self) + leaves(right) == ins(l0, needle0));
                                }
                                Some(right)
                            },
                        }
                    },
                }
            },
        }
    }
}

/// Spec-level componentwise sum.
pub open spec fn madd(a: Metric, b: Metric) -> Metric {
    mk(a.bytes + b.bytes, a.chars + b.chars)
}

/// The index of the leaf that a metric adjustment at char position `p`
/// lands on: the first leaf whose cumulative char count reaches `p`, the
/// last leaf when none does.
pub open spec fn aloc(l: Seq<Metric>, p: int) -> int
    decreases l.len(),
{
    if l.len() <= 1 {
        0
    } else if p <= l[0].chars {
        0
    } else {
        1 + aloc(l.drop_first(), p - l[0].chars)
    }
}

/// The leaf sequence after `add(p, d)`: `d` is added to the leaf at `p`.
pub open spec fn upd_add(l: Seq<Metric>, p: int, d: Metric) -> Seq<Metric> {
    l.update(aloc(l, p), madd(l[aloc(l, p)], d))
}

/// The leaf sequence after `remove(p, d)`: `d` is taken from the leaf at `p`.
pub open spec fn upd_sub(l: Seq<Metric>, p: int, d: Metric) -> Seq<Metric> {
    l.update(aloc(l, p), msub(l[aloc(l, p)], d))
}

/// Validity of `add`: the position lies in the tree, the totals stay within
/// the machine word, and the grown leaf remains an honest extent.
pub open spec fn add_ok(l: Seq<Metric>, p: int, d: Metric) -> bool {
    &&& 0 <= p <= sum_chars(l)
    &&& sum_bytes(l) + d.bytes <= u64::MAX
    &&& sum_chars(l) + d.chars <= u64::MAX
    &&& paired(madd(l[aloc(l, p)], d))
}

/// Validity of `remove`: the adjustment must not drive any summary
/// negative, so the leaf it lands on must cover it.
pub open spec fn sub_ok(l: Seq<Metric>, p: int, d: Metric) -> bool {
    &&& 0 <= p <= sum_chars(l)
    &&& d.bytes <= l[aloc(l, p)].bytes
    &&& d.chars <= l[aloc(l, p)].chars
    &&& paired(msub(l[aloc(l, p)], d))
}

pub proof fn lemma_aloc_bounds(l: Seq<Metric>, p: int)
    requires
        l.len() >= 1,
    ensures
        0 <= aloc(l, p) < l.len(),
    decreases l.len(),
{
    if l.len() > 1 && p > l[0].chars {
        lemma_aloc_bounds(l.drop_first(), p - l[0].chars);
    }
}

/// An adjustment past a whole group of leaves lands beyond it.
pub proof fn lemma_aloc_skip(g: Seq<Metric>, rest: Seq<Metric>, p: int)
    requires
        g.len() >= 1,
        rest.len() >= 1,
        p > sum_chars(g),
    ensures
        aloc(g + rest, p) == g.len() + aloc(rest, p - sum_chars(g)),
    decreases g.len(),
{
    lemma_sum_first(g);
    lemma_sum_nonneg(g.drop_first());
    assert((g + rest).len() > 1);
    assert((g + rest)[0] == g[0]);
    assert((g + rest).drop_first() =~= g.drop_first() + rest);
    if g.len() == 1 {
        assert(g.drop_first() + rest =~= rest);
    } else {
        lemma_aloc_skip(g.drop_first(), rest, p - g[0].chars);
    }
}

/// An adjustment at or before the end of a group of leaves lands inside it.
pub proof fn lemma_aloc_descend(g: Seq<Metric>, rest: Seq<Metric>, p: int)
    requires
        g.len() >= 1,
        p <= sum_chars(g),
    ensures
        aloc(g + rest, p) == aloc(g, p),
        aloc(g, p) < g.len(),
        (g + rest)[aloc(g + rest, p)] == g[aloc(g, p)],
    decreases g.len(),
{
    lemma_sum_first(g);
    lemma_sum_nonneg(g.drop_first());
    lemma_aloc_bounds(g, p);
    if rest.len() == 0 {
        assert(g + rest =~= g);
    } else if g.len() == 1 {
        assert((g + rest)[0] == g[0]);
    } else {
        assert((g + rest)[0] == g[0]);
        assert((g + rest).drop_first() =~= g.drop_first() + rest);
        if p > g[0].chars {
            lemma_aloc_descend(g.drop_first(), rest, p - g[0].chars);
        }
    }
}

pub proof fn lemma_sum_update(s: Seq<Metric>, j: int, v: Metric)
    requires
        0 <= j < s.len(),
    ensures
        sum_bytes(s.update(j, v)) == sum_bytes(s) - s[j].bytes + v.bytes,
        sum_chars(s.update(j, v)) == sum_chars(s) - s[j].chars + v.chars,
{
    let s2 = s.update(j, v);
    assert(s2 =~= s.take(j) + seq![v] + s.skip(j + 1));
    assert(s =~= s.take(j) + seq![s[j]] + s.skip(j + 1));
    lemma_sum_concat(s.take(j) + seq![v], s.skip(j + 1));
    lemma_sum_concat(s.take(j), seq![v]);
    lemma_sum_concat(s.take(j) + seq![s[j]], s.skip(j + 1));
    lemma_sum_concat(s.take(j), seq![s[j]]);
    lemma_one_sum(v);
    lemma_one_sum(s[j]);
}

pub proof fn lemma_sum_elem_bound(s: Seq<Metric>, j: int)
    requires
        0 <= j < s.len(),
    ensures
        s[j].bytes <= sum_bytes(s),
        s[j].chars <= sum_chars(s),
{
    assert(s =~= s.take(j) + seq![s[j]] + s.skip(j + 1));
    lemma_sum_concat(s.take(j) + seq![s[j]], s.skip(j + 1));
    lemma_sum_concat(s.take(j), seq![s[j]]);
    lemma_one_sum(s[j]);
    lemma_sum_nonneg(s.take(j));
    lemma_sum_nonneg(s.skip(j + 1));
}

/// Two trees have the same shape when their nodes and child counts agree
/// everywhere; the summaries may differ.
pub open spec fn same_shape(a: Internal, b: Internal) -> bool
    decreases a,
{
    match (a.children, b.children) {
        (Children::Leaf(x), Children::Leaf(y)) => x@.len() == y@.len(),
        (Children::Internal(x), Children::Internal(y)) => {
            &&& x@.len() == y@.len()
            &&& forall|i: int| 0 <= i < x@.len() ==> same_shape(#[trigger] x@[i], y@[i])
        },
        _ => false,
    }
}

pub proof fn lemma_same_shape_refl(a: Internal)
    ensures
        same_shape(a, a),
    decreases a,
{
    match a.children {
        Children::Leaf(_) => {},
        Children::Internal(cs) => {
            assert forall|i: int| 0 <= i < cs@.len() implies same_shape(#[trigger] cs@[i], cs@[i]) by {
                lemma_same_shape_refl(cs@[i]);
            }
        },
    }
}

impl Internal {
    /// Grow the leaf that contains char position `char_pos` by `new`,
    /// updating every summary on the path. The tree's structure is
    /// untouched.
    pub fn add(&mut self, char_pos: u64, new: Metric)
        requires
            wf(*old(self)),
            add_ok(leaves(*old(self)), char_pos as int, new),
        ensures
            wf(*final(self)),
            leaves(*final(self)) == upd_add(leaves(*old(self)), char_pos as int, new),
            same_shape(*old(self), *final(self)),
    {
        let ghost h = choose|h: nat| wf_node(*old(self), h);
        proof {
            lemma_wf_leaves_len(*old(self), h);
            lemma_aloc_bounds(leaves(*old(self)), char_pos as int);
        }
        self.add_impl(char_pos, new, Ghost(h));
        proof {
            let l0 = leaves(*old(self));
            let j = aloc(l0, char_pos as int);
            lemma_sum_update(l0, j, madd(l0[j], new));
            lemma_sum_elem_bound(l0, j);
        }
    }

    /// Shrink the leaf that contains char position `char_pos` by `update`,
    /// updating every summary on the path.
    pub fn remove(&mut self, char_pos: u64, update: Metric)
        requires
            wf(*old(self)),
            sub_ok(leaves(*old(self)), char_pos as int, update),
        ensures
            wf(*final(self)),
            leaves(*final(self)) == upd_sub(leaves(*old(self)), char_pos as int, update),
            same_shape(*old(self), *final(self)),
    {
        let ghost h = choose|h: nat| wf_node(*old(self), h);
        proof {
            lemma_wf_leaves_len(*old(self), h);
            lemma_aloc_bounds(leaves(*old(self)), char_pos as int);
        }
        self.remove_impl(char_pos, update, Ghost(h));
        proof {
            let l0 = leaves(*old(self));
            let j = aloc(l0, char_pos as int);
            lemma_sum_update(l0, j, msub(l0[j], update));
            lemma_sum_elem_bound(l0, j);
        }
    }

    #[verifier::rlimit(80)]
    fn add_impl(&mut self, char_pos: u64, d: Metric, Ghost(h): Ghost<nat>)
        requires
            wf_node(*old(self), h),
            add_ok(leaves(*old(self)), char_pos as int, d),
        ensures
            wf_node(*final(self), h),
            leaves(*final(self)) == upd_add(leaves(*old(self)), char_pos as int, d),
            same_shape(*old(self), *final(self)),
        decreases h,
    {
        let ghost l0 = leaves(*old(self));
        let ghost p0 = char_pos as int;
        let n = self.metrics.len();
        proof {
            lemma_sum_nonneg(l0);
            lemma_wf_leaves_len(*self, h);
            assert(leaf_prefix(*self, 0) =~= Seq::<Metric>::empty());
            lemma_leaf_prefix_suffix(*self, 0);
            assert(leaf_suffix(*self, 0) =~= l0);
        }
        let mut idx: usize = 0;
        let mut cp = char_pos;
        while idx < n - 1 && self.metrics[idx].chars < cp
            invariant
                *self == *old(self),
                wf_node(*self, h),
                n == self.metrics@.len(),
                1 <= n,
                0 <= idx <= n - 1,
                l0 == leaves(*self),
                add_ok(l0, p0, d),
                cp == p0 - sum_chars(leaf_prefix(*self, idx as int)),
                cp >= 0,
                cp <= sum_chars(leaf_suffix(*self, idx as int)),
                leaf_suffix(*self, idx as int).len() >= 1,
                aloc(l0, p0) == leaf_prefix(*self, idx as int).len() + aloc(
                    leaf_suffix(*self, idx as int),
                    cp as int,
                ),
            decreases n - idx,
        {
            proof {
                lemma_step_sums(*self, h, idx as int);
                lemma_suffix_len(*self, h, idx as int + 1);
                let suf = leaf_suffix(*self, idx as int);
                let suf1 = leaf_suffix(*self, idx as int + 1);
                let g: Seq<Metric> = match &self.children {
                    Children::Leaf(_) => seq![self.metrics@[idx as int]],
                    Children::Internal(cs) => leaves(cs@[idx as int]),
                };
                assert(suf =~= g + suf1);
                assert(sum_chars(g) == self.metrics@[idx as int].chars as int) by {
                    match &self.children {
                        Children::Leaf(_) => {
                            lemma_one_sum(self.metrics@[idx as int]);
                        },
                        Children::Internal(_) => {},
                    }
                }
                assert(g.len() >= 1) by {
                    match &self.children {
                        Children::Leaf(_) => {},
                        Children::Internal(cs) => {
                            lemma_wf_leaves_len(cs@[idx as int], (h - 1) as nat);
                        },
                    }
                }
                lemma_aloc_skip(g, suf1, cp as int);
                lemma_sum_concat(g, suf1);
                assert(leaf_prefix(*self, idx as int + 1) =~= leaf_prefix(*self, idx as int) + g)
                    by {
                    match &self.children {
                        Children::Leaf(_) => {},
                        Children::Internal(cs) => {
                            lemma_leaves_of_take_succ(cs@, idx as int);
                        },
                    }
                }
                lemma_sum_concat(leaf_prefix(*self, idx as int), g);
            }
            cp = cp - self.metrics[idx].chars;
            idx = idx + 1;
        }
        let ghost suf = leaf_suffix(*self, idx as int);
        let ghost suf1 = leaf_suffix(*self, idx as int + 1);
        let ghost pfx = leaf_prefix(*self, idx as int);
        let ghost jl = aloc(suf, cp as int);
        let ghost jg = aloc(l0, p0);
        proof {
            lemma_step_sums(*self, h, idx as int);
            if idx == n - 1 {
                lemma_suffix_len(*self, h, idx as int);
                assert(leaf_suffix(*self, n as int) =~= Seq::<Metric>::empty());
            }
            lemma_sum_nonneg(suf1);
            lemma_leaf_prefix_suffix(*self, idx as int);
            lemma_sum_concat(pfx, suf);
            assert(pfx + suf =~= l0);
            lemma_sum_nonneg(pfx);
            lemma_aloc_bounds(l0, p0);
        }
        match &mut self.children {
            Children::Leaf(_) => {
                proof {
                    assert(suf =~= self.metrics@.skip(idx as int));
                    // the adjustment lands on this leaf
                    if suf.len() > 1 {
                        assert(cp <= suf[0].chars);
                    }
                    assert(jl == 0);
                    assert(jg == idx);
                    assert(l0[jg as int] == self.metrics@[idx as int]);
                    lemma_sum_elem_bound(l0, jg);
                }
                let mv = self.metrics[idx].plus(d);
                self.metrics[idx] = mv;
                proof {
                    assert(self.metrics@ =~= l0.update(jg, madd(l0[jg], d)));
                    assert(all_paired(self.metrics@)) by {
                        assert(forall|i: int|
                            0 <= i < l0.len() && i != jg ==> self.metrics@[i] == l0[i]);
                    }
                    lemma_same_shape_refl(*old(self));
                }
            },
            Children::Internal(cs) => {
                let ghost oldcs = cs@;
                let ghost g = leaves(cs@[idx as int]);
                proof {
                    assert(suf =~= g + suf1);
                    lemma_wf_leaves_len(oldcs[idx as int], (h - 1) as nat);
                    assert(cp as int <= sum_chars(g)) by {
                        if idx == n - 1 {
                            assert(suf1 =~= Seq::<Metric>::empty());
                            assert(g + suf1 =~= g);
                        }
                    }
                    lemma_aloc_descend(g, suf1, cp as int);
                    lemma_aloc_bounds(g, cp as int);
                    assert(aloc(g, cp as int) == jl);
                    assert(0 <= jl < g.len());
                    assert(g[jl] == suf[jl]);
                    assert(jg == pfx.len() + jl);
                    assert(suf[jl] == l0[jg]) by {
                        assert(l0 == pfx + suf);
                    }
                    lemma_sum_elem_bound(l0, jg);
                    assert(add_ok(g, cp as int, d)) by {
                        lemma_sum_concat(g, suf1);
                    }
                }
                let mv = self.metrics[idx].plus(d);
                self.metrics[idx] = mv;
                cs[idx].add_impl(cp, d, Ghost((h - 1) as nat));
                proof {
                    lemma_leaves_of_update(oldcs, idx as int, cs@[idx as int]);
                    lemma_sum_update(g, jl, madd(g[jl], d));
                    assert(leaves(*self) =~= pfx + g.update(jl, madd(g[jl], d)) + suf1);
                    assert(l0.update(jg, madd(l0[jg], d)) =~= pfx + g.update(jl, madd(g[jl], d))
                        + suf1);
                    assert(wf_node(*self, h)) by {
                        assert(forall|i: int|
                            0 <= i < oldcs.len() && i != idx ==> cs@[i] == oldcs[i]);
                    }
                    assert(same_shape(*old(self), *self)) by {
                        assert forall|i: int| 0 <= i < oldcs.len() implies same_shape(
                            #[trigger] oldcs[i],
                            cs@[i],
                        ) by {
                            if i != idx {
                                lemma_same_shape_refl(oldcs[i]);
                            }
                        }
                    }
                }
            },
        }
    }

    #[verifier::rlimit(80)]
    fn remove_impl(&mut self, char_pos: u64, d: Metric, Ghost(h): Ghost<nat>)
        requires
            wf_node(*old(self), h),
            sub_ok(leaves(*old(self)), char_pos as int, d),
        ensures
            wf_node(*final(self), h),
            leaves(*final(self)) == upd_sub(leaves(*old(self)), char_pos as int, d),
            same_shape(*old(self), *final(self)),
        decreases h,
    {
        let ghost l0 = leaves(*old(self));
        let ghost p0 = char_pos as int;
        let n = self.metrics.len();
        proof {
            lemma_sum_nonneg(l0);
            lemma_wf_leaves_len(*self, h);
            assert(leaf_prefix(*self, 0) =~= Seq::<Metric>::empty());
            lemma_leaf_prefix_suffix(*self, 0);
            assert(leaf_suffix(*self, 0) =~= l0);
        }
        let mut idx: usize = 0;
        let mut cp = char_pos;
        while idx < n - 1 && self.metrics[idx].chars < cp
            invariant
                *self == *old(self),
                wf_node(*self, h),
                n == self.metrics@.len(),
                1 <= n,
                0 <= idx <= n - 1,
                l0 == leaves(*self),
                sub_ok(l0, p0, d),
                cp == p0 - sum_chars(leaf_prefix(*self, idx as int)),
                cp >= 0,
                cp <= sum_chars(leaf_suffix(*self, idx as int)),
                leaf_suffix(*self, idx as int).len() >= 1,
                aloc(l0, p0) == leaf_prefix(*self, idx as int).len() + aloc(
                    leaf_suffix(*self, idx as int),
                    cp as int,
                ),
            decreases n - idx,
        {
            proof {
                lemma_step_sums(*self, h, idx as int);
                lemma_suffix_len(*self, h, idx as int + 1);
                let suf = leaf_suffix(*self, idx as int);
                let suf1 = leaf_suffix(*self, idx as int + 1);
                let g: Seq<Metric> = match &self.children {
                    Children::Leaf(_) => seq![self.metrics@[idx as int]],
                    Children::Internal(cs) => leaves(cs@[idx as int]),
                };
                assert(suf =~= g + suf1);
                assert(sum_chars(g) == self.metrics@[idx as int].chars as int) by {
                    match &self.children {
                        Children::Leaf(_) => {
                            lemma_one_sum(self.metrics@[idx as int]);
                        },
                        Children::Internal(_) => {},
                    }
                }
                assert(g.len() >= 1) by {
                    match &self.children {
                        Children::Leaf(_) => {},
                        Children::Internal(cs) => {
                            lemma_wf_leaves_len(cs@[idx as int], (h - 1) as nat);
                        },
                    }
                }
                lemma_aloc_skip(g, suf1, cp as int);
                lemma_sum_concat(g, suf1);
                assert(leaf_prefix(*self, idx as int + 1) =~= leaf_prefix(*self, idx as int) + g)
                    by {
                    match &self.children {
                        Children::Leaf(_) => {},
                        Children::Internal(cs) => {
                            lemma_leaves_of_take_succ(cs@, idx as int);
                        },
                    }
                }
                lemma_sum_concat(leaf_prefix(*self, idx as int), g);
            }
            cp = cp - self.metrics[idx].chars;
            idx = idx + 1;
        }
        let ghost suf = leaf_suffix(*self, idx as int);
        let ghost suf1 = leaf_suffix(*self, idx as int + 1);
        let ghost pfx = leaf_prefix(*self, idx as int);
        let ghost jl = aloc(suf, cp as int);
        let ghost jg = aloc(l0, p0);
        proof {
            lemma_step_sums(*self, h, idx as int);
            if idx == n - 1 {
                lemma_suffix_len(*self, h, idx as int);
                assert(leaf_suffix(*self, n as int) =~= Seq::<Metric>::empty());
            }
            lemma_sum_nonneg(suf1);
            lemma_leaf_prefix_suffix(*self, idx as int);
            lemma_sum_concat(pfx, suf);
            assert(pfx + suf =~= l0);
            lemma_sum_nonneg(pfx);
            lemma_aloc_bounds(l0, p0);
        }
        match &mut self.children {
            Children::Leaf(_) => {
                proof {
                    assert(suf =~= self.metrics@.skip(idx as int));
                    if suf.len() > 1 {
                        assert(cp <= suf[0].chars);
                    }
                    assert(jl == 0);
                    assert(jg == idx);
                    assert(l0[jg as int] == self.metrics@[idx as int]);
                }
                let mv = self.metrics[idx].minus(d);
                self.metrics[idx] = mv;
                proof {
                    assert(self.metrics@ =~= l0.update(jg, msub(l0[jg], d)));
                    assert(all_paired(self.metrics@)) by {
                        assert(forall|i: int|
                            0 <= i < l0.len() && i != jg ==> self.metrics@[i] == l0[i]);
                    }
                    lemma_same_shape_refl(*old(self));
                }
            },
            Children::Internal(cs) => {
                let ghost oldcs = cs@;
                let ghost g = leaves(cs@[idx as int]);
                proof {
                    assert(suf =~= g + suf1);
                    lemma_wf_leaves_len(oldcs[idx as int], (h - 1) as nat);
                    assert(cp as int <= sum_chars(g)) by {
                        if idx == n - 1 {
                            assert(suf1 =~= Seq::<Metric>::empty());
                            assert(g + suf1 =~= g);
                        }
                    }
                    lemma_aloc_descend(g, suf1, cp as int);
                    lemma_aloc_bounds(g, cp as int);
                    assert(aloc(g, cp as int) == jl);
                    assert(0 <= jl < g.len());
                    assert(g[jl] == suf[jl]);
                    assert(jg == pfx.len() + jl);
                    assert(suf[jl] == l0[jg]) by {
                        assert(l0 == pfx + suf);
                    }
                    assert(sub_ok(g, cp as int, d)) by {
                        lemma_sum_concat(g, suf1);
                    }
                    // the summary covers the leaf being shrunk
                    lemma_sum_elem_bound(g, jl);
                    lemma_sum_nonneg(g);
                }
                let mv = self.metrics[idx].minus(d);
                self.metrics[idx] = mv;
                cs[idx].remove_impl(cp, d, Ghost((h - 1) as nat));
                proof {
                    lemma_leaves_of_update(oldcs, idx as int, cs@[idx as int]);
                    lemma_sum_update(g, jl, msub(g[jl], d));
                    assert(leaves(*self) =~= pfx + g.update(jl, msub(g[jl], d)) + suf1);
                    assert(l0.update(jg, msub(l0[jg], d)) =~= pfx + g.update(jl, msub(g[jl], d))
                        + suf1);
                    assert(wf_node(*self, h)) by {
                        assert(forall|i: int|
                            0 <= i < oldcs.len() && i != idx ==> cs@[i] == oldcs[i]);
                    }
                    assert(same_shape(*old(self), *self)) by {
                        assert forall|i: int| 0 <= i < oldcs.len() implies same_shape(
                            #[trigger] oldcs[i],
                            cs@[i],
                        ) by {
                            if i != idx {
                                lemma_same_shape_refl(oldcs[i]);
                            }
                        }
                    }
                }
            },
        }
    }
}

/// The index of the leaf that strictly contains char position `c`.
pub open spec fn dloc(l: Seq<Metric>, c: int) -> int
    decreases l.len(),
{
    if l.len() <= 1 {
        0
    } else if c < l[0].chars {
        0
    } else {
        1 + dloc(l.drop_first(), c - l[0].chars)
    }
}

/// Leaf `j` removed, its metric folded into its left neighbour.
pub open spec fn dmerge_left(l: Seq<Metric>, j: int) -> Seq<Metric> {
    l.take(j - 1) + seq![madd(l[j - 1], l[j])] + l.skip(j + 1)
}

/// Leaf `j` removed, its metric folded into its right neighbour.
pub open spec fn dmerge_right(l: Seq<Metric>, j: int) -> Seq<Metric> {
    l.take(j) + seq![madd(l[j], l[j + 1])] + l.skip(j + 2)
}

/// What a point delete leaves behind: the located leaf is gone and its
/// metric lives on in one of its neighbours.
pub open spec fn del_rel(l: Seq<Metric>, j: int, r: Seq<Metric>) -> bool {
    ||| (j > 0 && r == dmerge_left(l, j))
    ||| (j < l.len() - 1 && r == dmerge_right(l, j))
}

pub proof fn lemma_dloc_bounds(l: Seq<Metric>, c: int)
    requires
        l.len() >= 1,
    ensures
        0 <= dloc(l, c) < l.len(),
    decreases l.len(),
{
    if l.len() > 1 && c >= l[0].chars {
        lemma_dloc_bounds(l.drop_first(), c - l[0].chars);
    }
}

pub proof fn lemma_dloc_skip(g: Seq<Metric>, rest: Seq<Metric>, c: int)
    requires
        g.len() >= 1,
        rest.len() >= 1,
        c >= sum_chars(g),
    ensures
        dloc(g + rest, c) == g.len() + dloc(rest, c - sum_chars(g)),
    decreases g.len(),
{
    lemma_sum_first(g);
    lemma_sum_nonneg(g.drop_first());
    assert((g + rest).len() > 1);
    assert((g + rest)[0] == g[0]);
    assert((g + rest).drop_first() =~= g.drop_first() + rest);
    if g.len() == 1 {
        assert(g.drop_first() + rest =~= rest);
    } else {
        lemma_dloc_skip(g.drop_first(), rest, c - g[0].chars);
    }
}

pub proof fn lemma_dloc_descend(g: Seq<Metric>, rest: Seq<Metric>, c: int)
    requires
        g.len() >= 1,
        0 <= c < sum_chars(g),
    ensures
        dloc(g + rest, c) == dloc(g, c),
        dloc(g, c) < g.len(),
        (g + rest)[dloc(g + rest, c)] == g[dloc(g, c)],
    decreases g.len(),
{
    lemma_sum_first(g);
    lemma_sum_nonneg(g.drop_first());
    lemma_dloc_bounds(g, c);
    if rest.len() == 0 {
        assert(g + rest =~= g);
    } else if g.len() == 1 {
        assert((g + rest)[0] == g[0]);
    } else {
        assert((g + rest)[0] == g[0]);
        assert((g + rest).drop_first() =~= g.drop_first() + rest);
        if c >= g[0].chars {
            lemma_dloc_descend(g.drop_first(), rest, c - g[0].chars);
        }
    }
}

/// Folding a leaf into a neighbour drops one leaf and keeps the totals and
/// the pairing of every leaf.
pub proof fn lemma_dmerge_props(l: Seq<Metric>, j: int, left: bool)
    requires
        0 <= j < l.len(),
        left ==> j > 0,
        !left ==> j < l.len() - 1,
        all_paired(l),
        sum_bytes(l) <= u64::MAX,
        sum_chars(l) <= u64::MAX,
    ensures
        ({
            let r = if left {
                dmerge_left(l, j)
            } else {
                dmerge_right(l, j)
            };
            &&& r.len() == l.len() - 1
            &&& sum_bytes(r) == sum_bytes(l)
            &&& sum_chars(r) == sum_chars(l)
            &&& all_paired(r)
        }),
{
    lemma_sum_nonneg(l);
    if left {
        let r = dmerge_left(l, j);
        assert(l =~= l.take(j - 1) + seq![l[j - 1]] + seq![l[j]] + l.skip(j + 1));
        lemma_sum_concat(l.take(j - 1) + seq![l[j - 1]] + seq![l[j]], l.skip(j + 1));
        lemma_sum_concat(l.take(j - 1) + seq![l[j - 1]], seq![l[j]]);
        lemma_sum_concat(l.take(j - 1), seq![l[j - 1]]);
        lemma_one_sum(l[j - 1]);
        lemma_one_sum(l[j]);
        lemma_sum_concat(l.take(j - 1) + seq![madd(l[j - 1], l[j])], l.skip(j + 1));
        lemma_sum_concat(l.take(j - 1), seq![madd(l[j - 1], l[j])]);
        lemma_sum_nonneg(l.take(j - 1));
        lemma_sum_nonneg(l.skip(j + 1));
        assert(l[j - 1].bytes + l[j].bytes <= u64::MAX);
        assert(l[j - 1].chars + l[j].chars <= u64::MAX);
        lemma_one_sum(madd(l[j - 1], l[j]));
        assert forall|i: int| 0 <= i < r.len() implies paired(#[trigger] r[i]) by {
            if i < j - 1 {
                assert(r[i] == l[i]);
            } else if i == j - 1 {
                assert(r[i] == madd(l[j - 1], l[j]));
            } else {
                assert(r[i] == l[i + 1]);
            }
        }
    } else {
        let r = dmerge_right(l, j);
        assert(l =~= l.take(j) + seq![l[j]] + seq![l[j + 1]] + l.skip(j + 2));
        lemma_sum_concat(l.take(j) + seq![l[j]] + seq![l[j + 1]], l.skip(j + 2));
        lemma_sum_concat(l.take(j) + seq![l[j]], seq![l[j + 1]]);
        lemma_sum_concat(l.take(j), seq![l[j]]);
        lemma_one_sum(l[j]);
        lemma_one_sum(l[j + 1]);
        lemma_sum_concat(l.take(j) + seq![madd(l[j], l[j + 1])], l.skip(j + 2));
        lemma_sum_concat(l.take(j), seq![madd(l[j], l[j + 1])]);
        lemma_sum_nonneg(l.take(j));
        lemma_sum_nonneg(l.skip(j + 2));
        assert(l[j].bytes + l[j + 1].bytes <= u64::MAX);
        assert(l[j].chars + l[j + 1].chars <= u64::MAX);
        lemma_one_sum(madd(l[j], l[j + 1]));
        assert forall|i: int| 0 <= i < r.len() implies paired(#[trigger] r[i]) by {
            if i < j {
                assert(r[i] == l[i]);
            } else if i == j {
                assert(r[i] == madd(l[j], l[j + 1]));
            } else {
                assert(r[i] == l[i + 1]);
            }
        }
    }
}

pub proof fn lemma_wf_to_loose(n: Internal, h: nat)
    requires
        wf_node(n, h),
    ensures
        wf_loose(n, h),
{
    match n.children {
        Children::Leaf(_) => {},
        Children::Internal(_) => {},
    }
}

/// A merge of adjacent leaves inside a slice is the same merge inside the
/// whole sequence.
pub proof fn lemma_dmerge_embed(p: Seq<Metric>, g: Seq<Metric>, s: Seq<Metric>, j: int)
    requires
        0 <= j < g.len(),
    ensures
        j > 0 ==> p + dmerge_left(g, j) + s == dmerge_left(p + g + s, p.len() + j),
        j < g.len() - 1 ==> p + dmerge_right(g, j) + s == dmerge_right(p + g + s, p.len() + j),
{
    let l = p + g + s;
    let pj = p.len() + j;
    if j > 0 {
        assert(l[pj - 1] == g[j - 1]);
        assert(l[pj] == g[j]);
        assert(p + dmerge_left(g, j) + s =~= dmerge_left(l, pj)) by {
            assert(l.take(pj - 1) =~= p + g.take(j - 1));
            assert(l.skip(pj + 1) =~= g.skip(j + 1) + s);
        }
    }
    if j < g.len() - 1 {
        assert(l[pj] == g[j]);
        assert(l[pj + 1] == g[j + 1]);
        assert(p + dmerge_right(g, j) + s =~= dmerge_right(l, pj)) by {
            assert(l.take(pj) =~= p + g.take(j));
            assert(l.skip(pj + 2) =~= g.skip(j + 2) + s);
        }
    }
}

/// A node detached from a sibling during rebalancing.
pub enum Node {
    Internal(Internal),
    Leaf(Leaf),
}

/// The leaves that a stolen node carries: an internal node brings its
/// subtree's leaves, a bare leaf brings the metric recorded beside it.
pub open spec fn stolen_leaves(nd: Node, m: Metric) -> Seq<Metric> {
    match nd {
        Node::Internal(c) => leaves(c),
        Node::Leaf(_) => seq![m],
    }
}

/// Like `wf_node` but the top node may hold a single child: the transient
/// state of a node that rebalancing must still repair or absorb.
pub open spec fn wf_loose(n: Internal, h: nat) -> bool
    decreases n,
{
    match n.children {
        Children::Leaf(ls) => {
            &&& h == 0
            &&& n.metrics@.len() == ls@.len()
            &&& 1 <= ls@.len() <= MAX
            &&& all_paired(n.metrics@)
        },
        Children::Internal(cs) => {
            &&& h >= 1
            &&& n.metrics@.len() == cs@.len()
            &&& 1 <= cs@.len() <= MAX
            &&& forall|i: int| 0 <= i < cs@.len() ==> wf_node(#[trigger] cs@[i], (h - 1) as nat)
            &&& forall|i: int|
                0 <= i < cs@.len() ==> (#[trigger] n.metrics@[i]).bytes == sum_bytes(
                    leaves(cs@[i]),
                ) && n.metrics@[i].chars == sum_chars(leaves(cs@[i]))
        },
    }
}

impl Internal {
    /// Detach the rightmost child, unless this node is at its minimum.
    fn steal_greatest(&mut self, Ghost(h): Ghost<nat>) -> (r: Option<(Node, Metric)>)
        requires
            wf_node(*old(self), h),
        ensures
            match r {
                None => *final(self) == *old(self) && leaves(*old(self)).len() >= 1 && (match old(
                    self,
                ).children {
                    Children::Leaf(ls) => ls@.len() == 1,
                    Children::Internal(cs) => cs@.len() == MIN,
                }),
                Some((nd, m)) => {
                    &&& wf_node(*final(self), h)
                    &&& leaves(*old(self)) == leaves(*final(self)) + stolen_leaves(nd, m)
                    &&& m.bytes == sum_bytes(stolen_leaves(nd, m))
                    &&& m.chars == sum_chars(stolen_leaves(nd, m))
                    &&& stolen_leaves(nd, m).len() >= 1
                    &&& all_paired(stolen_leaves(nd, m))
                    &&& match nd {
                        Node::Leaf(_) => h == 0,
                        Node::Internal(c) => h >= 1 && wf_node(c, (h - 1) as nat),
                    }
                },
            },
    {
        let ghost l0 = leaves(*old(self));
        let can_steal = match &self.children {
            Children::Internal(cs) => cs.len() > MIN,
            Children::Leaf(ls) => ls.len() > 1,
        };
        if !can_steal {
            proof {
                lemma_wf_leaves_len(*old(self), h);
                assert(*self == *old(self));
                assert(match old(self).children {
                    Children::Leaf(ls) => ls@.len() == 1,
                    Children::Internal(cs) => cs@.len() == MIN,
                });
            }
            return None;
        }
        match &mut self.children {
            Children::Internal(cs) => {
                {
                    let ghost oldcs = cs@;
                    let m = self.metrics.pop().unwrap();
                    let child = cs.pop().unwrap();
                    proof {
                        let k = oldcs.len() - 1;
                        assert(oldcs.drop_last() =~= oldcs.take(k));
                        lemma_leaf_prefix_suffix_of(oldcs, k);
                        assert(oldcs.skip(k) =~= seq![oldcs[k]]);
                        reveal_with_fuel(leaves_of, 2);
                        assert(leaves_of(seq![oldcs[k]]) =~= leaves(oldcs[k]));
                        assert(leaves(*self) == leaves_of(oldcs.take(k)));
                        lemma_wf_paired(child, (h - 1) as nat);
                        lemma_wf_leaves_len(child, (h - 1) as nat);
                        assert(self.metrics@ =~= old(self).metrics@.take(k));
                        assert(forall|i: int|
                            0 <= i < cs@.len() ==> cs@[i] == oldcs[i] && self.metrics@[i] == old(
                                self,
                            ).metrics@[i]);
                        assert(wf_node(*self, h));
                        assert(child == oldcs[k]);
                        assert(m == old(self).metrics@[k]);
                    }
                    Some((Node::Internal(child), m))
                }
            },
            Children::Leaf(ls) => {
                {
                    let ghost oldm = self.metrics@;
                    let m = self.metrics.pop().unwrap();
                    let leaf = ls.pop().unwrap();
                    proof {
                        let k = oldm.len() - 1;
                        assert(oldm.drop_last() =~= oldm.take(k));
                        assert(oldm =~= oldm.take(k) + seq![m]);
                        lemma_one_sum(m);
                        assert(m == oldm[k]);
                        assert(paired(m));
                        assert(forall|i: int|
                            0 <= i < self.metrics@.len() ==> self.metrics@[i] == oldm[i]);
                        assert(all_paired(self.metrics@));
                        assert(wf_node(*self, h));
                        assert(all_paired(seq![m])) by {
                            assert(seq![m][0] == m);
                        }
                    }
                    Some((Node::Leaf(leaf), m))
                }
            },
        }
    }

    /// Detach the leftmost child, unless this node is at its minimum.
    fn steal_least(&mut self, Ghost(h): Ghost<nat>) -> (r: Option<(Node, Metric)>)
        requires
            wf_node(*old(self), h),
        ensures
            match r {
                None => *final(self) == *old(self) && (match old(self).children {
                    Children::Leaf(ls) => ls@.len() == 1,
                    Children::Internal(cs) => cs@.len() == MIN,
                }),
                Some((nd, m)) => {
                    &&& wf_node(*final(self), h)
                    &&& leaves(*old(self)) == stolen_leaves(nd, m) + leaves(*final(self))
                    &&& m.bytes == sum_bytes(stolen_leaves(nd, m))
                    &&& m.chars == sum_chars(stolen_leaves(nd, m))
                    &&& stolen_leaves(nd, m).len() >= 1
                    &&& all_paired(stolen_leaves(nd, m))
                    &&& match nd {
                        Node::Leaf(_) => h == 0,
                        Node::Internal(c) => h >= 1 && wf_node(c, (h - 1) as nat),
                    }
                },
            },
    {
        let can_steal = match &self.children {
            Children::Internal(cs) => cs.len() > MIN,
            Children::Leaf(ls) => ls.len() > 1,
        };
        if !can_steal {
            proof {
                assert(*self == *old(self));
                assert(match old(self).children {
                    Children::Leaf(ls) => ls@.len() == 1,
                    Children::Internal(cs) => cs@.len() == MIN,
                });
            }
            return None;
        }
        match &mut self.children {
            Children::Internal(cs) => {
                {
                    let ghost oldcs = cs@;
                    let m = self.metrics.remove(0);
                    let child = cs.remove(0);
                    proof {
                        assert(cs@ =~= oldcs.drop_first());
                        assert(oldcs =~= seq![oldcs[0]] + oldcs.drop_first());
                        lemma_leaves_of_concat(seq![oldcs[0]], oldcs.drop_first());
                        reveal_with_fuel(leaves_of, 2);
                        assert(leaves_of(seq![oldcs[0]]) =~= leaves(oldcs[0]));
                        assert(forall|i: int|
                            0 <= i < cs@.len() ==> cs@[i] == oldcs[i + 1] && self.metrics@[i]
                                == old(self).metrics@[i + 1]);
                        lemma_wf_paired(child, (h - 1) as nat);
                        lemma_wf_leaves_len(child, (h - 1) as nat);
                        assert(wf_node(*self, h));
                        assert(child == oldcs[0]);
                        assert(m == old(self).metrics@[0]);
                    }
                    Some((Node::Internal(child), m))
                }
            },
            Children::Leaf(ls) => {
                {
                    let ghost oldm = self.metrics@;
                    let m = self.metrics.remove(0);
                    let leaf = ls.remove(0);
                    proof {
                        assert(oldm =~= seq![m] + oldm.skip(1));
                        lemma_one_sum(m);
                        assert(m == oldm[0]);
                        assert(paired(m));
                        assert(forall|i: int|
                            0 <= i < self.metrics@.len() ==> self.metrics@[i] == oldm[i + 1]);
                        assert(all_paired(self.metrics@));
                        assert(wf_node(*self, h));
                        assert(all_paired(seq![m])) by {
                            assert(seq![m][0] == m);
                        }
                    }
                    Some((Node::Leaf(leaf), m))
                }
            },
        }
    }
}

impl Internal {
    /// Fold a stolen node into this underfull node: a stolen subtree is
    /// adopted as a new first or last child; a stolen leaf absorbs the
    /// metric of this node's single doomed leaf.
    fn merge_node(&mut self, node: Node, metric: Metric, idx: usize, Ghost(h): Ghost<nat>)
        requires
            wf_loose(*old(self), h),
            match (old(self).children, node) {
                (Children::Leaf(ls), Node::Leaf(_)) => {
                    &&& ls@.len() == 1
                    &&& paired(metric)
                    &&& old(self).metrics@[0].bytes + metric.bytes <= u64::MAX
                    &&& old(self).metrics@[0].chars + metric.chars <= u64::MAX
                },
                (Children::Internal(cs), Node::Internal(c)) => {
                    &&& h >= 1
                    &&& cs@.len() + 1 <= MAX
                    &&& (idx == 0 || idx == cs@.len())
                    &&& wf_node(c, (h - 1) as nat)
                    &&& metric.bytes == sum_bytes(leaves(c))
                    &&& metric.chars == sum_chars(leaves(c))
                },
                _ => false,
            },
        ensures
            match (old(self).children, node) {
                (Children::Leaf(_), Node::Leaf(_)) => {
                    &&& wf_node(*final(self), h)
                    &&& leaves(*final(self)) == seq![madd(old(self).metrics@[0], metric)]
                },
                (Children::Internal(cs), Node::Internal(c)) => {
                    &&& wf_loose(*final(self), h)
                    &&& final(self).metrics@.len() == cs@.len() + 1
                    &&& (cs@.len() + 1 >= MIN ==> wf_node(*final(self), h))
                    &&& (idx == 0 ==> leaves(*final(self)) == leaves(c) + leaves(*old(self)))
                    &&& (idx != 0 ==> leaves(*final(self)) == leaves(*old(self)) + leaves(c))
                },
                _ => true,
            },
    {
        let ghost oldself = *old(self);
        match (&mut self.children, node) {
            (Children::Internal(cs), Node::Internal(c)) => {
                let ghost oldcs = cs@;
                let ghost gc = c;
                self.metrics.insert(idx, metric);
                cs.insert(idx, c);
                proof {
                    if idx == 0 {
                        assert(cs@ =~= seq![gc] + oldcs);
                        lemma_leaves_of_concat(seq![gc], oldcs);
                        reveal_with_fuel(leaves_of, 2);
                        assert(leaves_of(seq![gc]) =~= leaves(gc));
                        assert(forall|i: int|
                            1 <= i < cs@.len() ==> cs@[i] == oldcs[i - 1] && self.metrics@[i]
                                == oldself.metrics@[i - 1]);
                        assert(wf_loose(*self, h));
                    } else {
                        assert(cs@ =~= oldcs + seq![gc]);
                        lemma_leaves_of_concat(oldcs, seq![gc]);
                        reveal_with_fuel(leaves_of, 2);
                        assert(leaves_of(seq![gc]) =~= leaves(gc));
                        assert(forall|i: int|
                            0 <= i < oldcs.len() ==> cs@[i] == oldcs[i] && self.metrics@[i]
                                == oldself.metrics@[i]);
                        assert(wf_loose(*self, h));
                    }
                }
            },
            (Children::Leaf(ls), Node::Leaf(lf)) => {
                let mv = self.metrics[0].plus(metric);
                self.metrics[0] = mv;
                ls[0] = lf;
                proof {
                    assert(self.metrics@ =~= seq![madd(oldself.metrics@[0], metric)]);
                    assert(all_paired(self.metrics@)) by {
                        assert(self.metrics@[0] == madd(oldself.metrics@[0], metric));
                        assert(paired(oldself.metrics@[0]));
                    }
                    assert(wf_node(*self, h));
                }
            },
            (_, _) => {
                proof {
                    assert(false);
                }
            },
        }
    }

    /// Absorb a right sibling: an internal node takes over its children and
    /// summaries; a node holding a single doomed leaf is replaced by the
    /// sibling's leaf carrying both metrics.
    fn merge_sibling(&mut self, right: Internal, Ghost(h): Ghost<nat>)
        requires
            wf_loose(*old(self), h),
            wf_loose(right, h),
            match (old(self).children, right.children) {
                (Children::Leaf(a), Children::Leaf(b)) => {
                    &&& a@.len() == 1
                    &&& b@.len() == 1
                    &&& old(self).metrics@[0].bytes + right.metrics@[0].bytes <= u64::MAX
                    &&& old(self).metrics@[0].chars + right.metrics@[0].chars <= u64::MAX
                },
                (Children::Internal(a), Children::Internal(b)) => { a@.len() + b@.len() <= MAX },
                _ => false,
            },
        ensures
            match (old(self).children, right.children) {
                (Children::Leaf(_), Children::Leaf(_)) => {
                    &&& wf_node(*final(self), h)
                    &&& leaves(*final(self)) == seq![
                        madd(old(self).metrics@[0], right.metrics@[0]),
                    ]
                },
                (Children::Internal(a), Children::Internal(b)) => {
                    &&& wf_loose(*final(self), h)
                    &&& final(self).metrics@.len() == a@.len() + b@.len()
                    &&& (a@.len() + b@.len() >= MIN ==> wf_node(*final(self), h))
                    &&& leaves(*final(self)) == leaves(*old(self)) + leaves(right)
                },
                _ => true,
            },
    {
        let ghost oldself = *old(self);
        let ghost oldright = right;
        let Internal { metrics: mut rm, children: rc } = right;
        match (&mut self.children, rc) {
            (Children::Internal(cs), Children::Internal(rcs)) => {
                let ghost oldcs = cs@;
                let ghost orcs = rcs@;
                let mut rcs_owned = rcs;
                self.metrics.append(&mut rm);
                cs.append(&mut rcs_owned);
                proof {
                    assert(cs@ =~= oldcs + orcs);
                    lemma_leaves_of_concat(oldcs, orcs);
                    assert(forall|i: int|
                        0 <= i < oldcs.len() ==> cs@[i] == oldcs[i] && self.metrics@[i]
                            == oldself.metrics@[i]);
                    assert(forall|i: int|
                        oldcs.len() <= i < cs@.len() ==> cs@[i] == orcs[i - oldcs.len()]
                            && self.metrics@[i] == oldright.metrics@[i - oldcs.len()]);
                    assert(wf_loose(*self, h));
                }
            },
            (Children::Leaf(ls), Children::Leaf(rls)) => {
                let mut rls_owned = rls;
                let rl = rls_owned.pop().unwrap();
                let mv = self.metrics[0].plus(rm[0]);
                self.metrics[0] = mv;
                ls[0] = rl;
                proof {
                    assert(self.metrics@ =~= seq![
                        madd(oldself.metrics@[0], oldright.metrics@[0]),
                    ]);
                    assert(all_paired(self.metrics@)) by {
                        assert(self.metrics@[0] == madd(oldself.metrics@[0], oldright.metrics@[0]));
                        assert(paired(oldself.metrics@[0]));
                        assert(paired(oldright.metrics@[0]));
                    }
                    assert(wf_node(*self, h));
                }
            },
            (_, _) => {
                proof {
                    assert(false);
                }
            },
        }
    }
}

proof fn lemma_sum_two_elems(s: Seq<Metric>, i: int, j: int)
    requires
        0 <= i < j < s.len(),
    ensures
        s[i].bytes + s[j].bytes <= sum_bytes(s),
        s[i].chars + s[j].chars <= sum_chars(s),
{
    assert(s =~= s.take(i) + seq![s[i]] + s.subrange(i + 1, j) + seq![s[j]] + s.skip(j + 1));
    lemma_sum_concat(s.take(i) + seq![s[i]] + s.subrange(i + 1, j) + seq![s[j]], s.skip(j + 1));
    lemma_sum_concat(s.take(i) + seq![s[i]] + s.subrange(i + 1, j), seq![s[j]]);
    lemma_sum_concat(s.take(i) + seq![s[i]], s.subrange(i + 1, j));
    lemma_sum_concat(s.take(i), seq![s[i]]);
    lemma_one_sum(s[i]);
    lemma_one_sum(s[j]);
    lemma_sum_nonneg(s.take(i));
    lemma_sum_nonneg(s.subrange(i + 1, j));
    lemma_sum_nonneg(s.skip(j + 1));
}

proof fn lemma_leaves_of_update2(cs: Seq<Internal>, i: int, a: Internal, b: Internal)
    requires
        0 <= i,
        i + 1 < cs.len(),
    ensures
        leaves_of(cs.update(i, a).update(i + 1, b)) == leaves_of(cs.take(i)) + leaves(a) + leaves(
            b,
        ) + leaves_of(cs.skip(i + 2)),
        leaves_of(cs) == leaves_of(cs.take(i)) + leaves(cs[i]) + leaves(cs[i + 1]) + leaves_of(
            cs.skip(i + 2),
        ),
{
    let cs2 = cs.update(i, a).update(i + 1, b);
    assert(cs2 =~= cs.take(i) + seq![a] + seq![b] + cs.skip(i + 2));
    assert(cs =~= cs.take(i) + seq![cs[i]] + seq![cs[i + 1]] + cs.skip(i + 2));
    lemma_leaves_of_concat(cs.take(i) + seq![a] + seq![b], cs.skip(i + 2));
    lemma_leaves_of_concat(cs.take(i) + seq![a], seq![b]);
    lemma_leaves_of_concat(cs.take(i), seq![a]);
    lemma_leaves_of_concat(cs.take(i) + seq![cs[i]] + seq![cs[i + 1]], cs.skip(i + 2));
    lemma_leaves_of_concat(cs.take(i) + seq![cs[i]], seq![cs[i + 1]]);
    lemma_leaves_of_concat(cs.take(i), seq![cs[i]]);
    reveal_with_fuel(leaves_of, 2);
    assert(leaves_of(seq![a]) =~= leaves(a));
    assert(leaves_of(seq![b]) =~= leaves(b));
    assert(leaves_of(seq![cs[i]]) =~= leaves(cs[i]));
    assert(leaves_of(seq![cs[i + 1]]) =~= leaves(cs[i + 1]));
}

/// The transient state of a child that a point delete could not resolve:
/// at height zero it still holds the single doomed leaf; higher up its
/// subtree is already rewritten but it has only one child left.
pub open spec fn pending(c: Internal, hc: nat) -> bool {
    if hc == 0 {
        wf_node(c, 0) && c.metrics@.len() == 1
    } else {
        wf_loose(c, hc) && c.metrics@.len() == 1
    }
}

impl Internal {
    /// Try to fix the pending child at `idx` by stealing the rightmost
    /// child of its left sibling.
    #[verifier::rlimit(100)]
    fn rebal_steal_left(
        children: &mut Vec<Internal>,
        metrics: &mut Vec<Metric>,
        idx: usize,
        Ghost(hc): Ghost<nat>,
    ) -> (stole: bool)
        requires
            old(metrics)@.len() == old(children)@.len(),
            1 <= idx < old(children)@.len(),
            old(children)@.len() <= MAX,
            forall|i: int|
                0 <= i < old(children)@.len() && i != idx ==> wf_node(
                    #[trigger] old(children)@[i],
                    hc,
                ),
            forall|i: int|
                0 <= i < old(children)@.len() ==> (#[trigger] old(metrics)@[i]).bytes == sum_bytes(
                    leaves(old(children)@[i]),
                ) && old(metrics)@[i].chars == sum_chars(leaves(old(children)@[i])),
            pending(old(children)@[idx as int], hc),
            sum_bytes(leaves_of(old(children)@)) <= u64::MAX,
            sum_chars(leaves_of(old(children)@)) <= u64::MAX,
        ensures
            !stole ==> final(children)@ == old(children)@ && final(metrics)@ == old(metrics)@
                && old(children)@[idx as int - 1].metrics@.len() == (if hc == 0 {
                1int
            } else {
                MIN as int
            }),
            stole ==> ({
                &&& final(children)@.len() == old(children)@.len()
                &&& final(metrics)@.len() == final(children)@.len()
                &&& forall|i: int|
                    0 <= i < final(children)@.len() ==> wf_node(#[trigger] final(children)@[i], hc)
                &&& forall|i: int|
                    0 <= i < final(children)@.len() ==> (#[trigger] final(metrics)@[i]).bytes
                        == sum_bytes(leaves(final(children)@[i])) && final(metrics)@[i].chars
                        == sum_chars(leaves(final(children)@[i]))
                &&& (hc == 0 ==> leaves_of(final(children)@) == dmerge_left(
                    leaves_of(old(children)@),
                    leaves_of(old(children)@.take(idx as int)).len() as int,
                ))
                &&& (hc > 0 ==> leaves_of(final(children)@) == leaves_of(old(children)@))
            }),
    {
        let ghost oldcs = old(children)@;
        let ghost lcl = leaves_of(oldcs);
        let ghost g = leaves(oldcs[idx as int]);
        let ghost gl = leaves(oldcs[idx as int - 1]);
        let ghost p2 = leaves_of(oldcs.take(idx as int - 1));
        let ghost s1 = leaves_of(oldcs.skip(idx as int + 1));
        proof {
            lemma_leaves_of_update2(oldcs, idx as int - 1, oldcs[idx as int - 1], oldcs[idx as int]);
            assert(lcl =~= p2 + gl + leaves(oldcs[idx as int]) + s1);
            lemma_sum_concat(p2 + gl + g, s1);
            lemma_sum_concat(p2 + gl, g);
            lemma_sum_concat(p2, gl);
            lemma_sum_nonneg(p2);
            lemma_sum_nonneg(s1);
            lemma_sum_nonneg(g);
            lemma_sum_nonneg(gl);
            lemma_wf_paired(oldcs[idx as int - 1], hc);
            if hc == 0 {
                assert(oldcs[idx as int].metrics@ =~= g);
                assert(g =~= seq![g[0]]);
                lemma_one_sum(g[0]);
                assert(sum_bytes(g) == g[0].bytes);
                assert(sum_chars(g) == g[0].chars);
            }
        }
        let stolen = children[idx - 1].steal_greatest(Ghost(hc));
        match stolen {
            Some((node, m)) => {
                let ghost sib2 = children@[idx as int - 1];
                let ghost stl = stolen_leaves(node, m);
                proof {
                    lemma_sum_nonneg(leaves(sib2));
                    lemma_sum_nonneg(stl);
                    lemma_sum_concat(leaves(sib2), stl);
                    assert(gl =~= leaves(sib2) + stl);
                    assert(children@[idx as int] == oldcs[idx as int]);
                    if hc == 0 {
                        lemma_wf_to_loose(children@[idx as int], hc);
                        assert(paired(m)) by {
                            assert(stl[0] == m);
                        }
                        assert(children@[idx as int].metrics@ =~= g);
                        assert(m.bytes <= sum_bytes(gl) && m.chars <= sum_chars(gl));
                        assert(g[0].bytes + m.bytes <= u64::MAX);
                        assert(g[0].chars + m.chars <= u64::MAX);
                    }
                }
                children[idx].merge_node(node, m, 0, Ghost(hc));
                proof {
                    assert(old(metrics)@[idx as int].bytes == sum_bytes(g));
                    assert(m.bytes <= sum_bytes(gl) && m.chars <= sum_chars(gl));
                    assert(m.bytes <= old(metrics)@[idx as int - 1].bytes);
                    assert(m.chars <= old(metrics)@[idx as int - 1].chars);
                }
                let mv = metrics[idx].plus(m);
                metrics[idx] = mv;
                let mv2 = metrics[idx - 1].minus(m);
                metrics[idx - 1] = mv2;
                proof {
                    let child2 = children@[idx as int];
                    lemma_leaves_of_update2(oldcs, idx as int - 1, sib2, child2);
                    assert(leaves_of(children@) =~= p2 + leaves(sib2) + leaves(child2) + s1);
                    if hc == 0 {
                        assert(leaves(child2) =~= seq![madd(g[0], m)]);
                        lemma_one_sum(madd(g[0], m));
                        let jj = leaves_of(oldcs.take(idx as int)).len() as int;
                        assert(leaves_of(oldcs.take(idx as int)) =~= p2 + gl) by {
                            lemma_leaves_of_take_succ(oldcs, idx as int - 1);
                        }
                        assert(jj == p2.len() + gl.len());
                        assert(leaves_of(children@) =~= dmerge_left(lcl, jj)) by {
                            assert(lcl.take(jj - 1) =~= p2 + leaves(sib2));
                            assert(lcl.skip(jj + 1) =~= s1);
                            assert(lcl[jj - 1] == m) by {
                                assert(gl[gl.len() - 1] == m);
                            }
                            assert(lcl[jj] == g[0]);
                            assert(madd(lcl[jj - 1], lcl[jj]) == madd(g[0], m));
                        }
                    } else {
                        assert(leaves(child2) =~= stl + g);
                        lemma_sum_concat(stl, g);
                        assert(leaves_of(children@) =~= lcl);
                    }
                    assert(forall|i: int|
                        0 <= i < oldcs.len() && i != idx && i != idx - 1 ==> children@[i]
                            == oldcs[i] && metrics@[i] == old(metrics)@[i]);
                    assert(metrics@[idx as int].bytes == sum_bytes(leaves(child2)));
                    assert(metrics@[idx as int].chars == sum_chars(leaves(child2)));
                    assert(metrics@[idx as int - 1].bytes == sum_bytes(leaves(sib2)));
                    assert(metrics@[idx as int - 1].chars == sum_chars(leaves(sib2)));
                    assert(wf_node(children@[idx as int], hc));
                }
                true
            },
            None => {
                proof {
                    assert(children@ =~= oldcs);
                }
                false
            },
        }
    }

    /// Try to fix the pending child at `idx` by stealing the leftmost
    /// child of its right sibling.
    #[verifier::rlimit(100)]
    fn rebal_steal_right(
        children: &mut Vec<Internal>,
        metrics: &mut Vec<Metric>,
        idx: usize,
        Ghost(hc): Ghost<nat>,
    ) -> (stole: bool)
        requires
            old(metrics)@.len() == old(children)@.len(),
            0 <= idx,
            idx + 1 < old(children)@.len(),
            old(children)@.len() <= MAX,
            forall|i: int|
                0 <= i < old(children)@.len() && i != idx ==> wf_node(
                    #[trigger] old(children)@[i],
                    hc,
                ),
            forall|i: int|
                0 <= i < old(children)@.len() ==> (#[trigger] old(metrics)@[i]).bytes == sum_bytes(
                    leaves(old(children)@[i]),
                ) && old(metrics)@[i].chars == sum_chars(leaves(old(children)@[i])),
            pending(old(children)@[idx as int], hc),
            sum_bytes(leaves_of(old(children)@)) <= u64::MAX,
            sum_chars(leaves_of(old(children)@)) <= u64::MAX,
        ensures
            !stole ==> final(children)@ == old(children)@ && final(metrics)@ == old(metrics)@
                && old(children)@[idx as int + 1].metrics@.len() == (if hc == 0 {
                1int
            } else {
                MIN as int
            }),
            stole ==> ({
                &&& final(children)@.len() == old(children)@.len()
                &&& final(metrics)@.len() == final(children)@.len()
                &&& forall|i: int|
                    0 <= i < final(children)@.len() ==> wf_node(#[trigger] final(children)@[i], hc)
                &&& forall|i: int|
                    0 <= i < final(children)@.len() ==> (#[trigger] final(metrics)@[i]).bytes
                        == sum_bytes(leaves(final(children)@[i])) && final(metrics)@[i].chars
                        == sum_chars(leaves(final(children)@[i]))
                &&& (hc == 0 ==> leaves_of(final(children)@) == dmerge_right(
                    leaves_of(old(children)@),
                    leaves_of(old(children)@.take(idx as int)).len() as int,
                ))
                &&& (hc > 0 ==> leaves_of(final(children)@) == leaves_of(old(children)@))
            }),
    {
        let ghost oldcs = old(children)@;
        let ghost lcl = leaves_of(oldcs);
        let ghost g = leaves(oldcs[idx as int]);
        let ghost gr = leaves(oldcs[idx as int + 1]);
        let ghost p2 = leaves_of(oldcs.take(idx as int));
        let ghost s2 = leaves_of(oldcs.skip(idx as int + 2));
        proof {
            lemma_leaves_of_update2(oldcs, idx as int, oldcs[idx as int], oldcs[idx as int + 1]);
            assert(lcl =~= p2 + g + gr + s2);
            lemma_sum_concat(p2 + g + gr, s2);
            lemma_sum_concat(p2 + g, gr);
            lemma_sum_concat(p2, g);
            lemma_sum_nonneg(p2);
            lemma_sum_nonneg(s2);
            lemma_sum_nonneg(g);
            lemma_sum_nonneg(gr);
            lemma_wf_paired(oldcs[idx as int + 1], hc);
            if hc == 0 {
                assert(oldcs[idx as int].metrics@ =~= g);
                assert(g =~= seq![g[0]]);
                lemma_one_sum(g[0]);
                assert(sum_bytes(g) == g[0].bytes);
                assert(sum_chars(g) == g[0].chars);
            }
        }
        let stolen = children[idx + 1].steal_least(Ghost(hc));
        match stolen {
            Some((node, m)) => {
                let ghost sib2 = children@[idx as int + 1];
                let ghost stl = stolen_leaves(node, m);
                proof {
                    lemma_sum_nonneg(leaves(sib2));
                    lemma_sum_nonneg(stl);
                    lemma_sum_concat(stl, leaves(sib2));
                    assert(gr =~= stl + leaves(sib2));
                    assert(children@[idx as int] == oldcs[idx as int]);
                    if hc == 0 {
                        lemma_wf_to_loose(children@[idx as int], hc);
                        assert(paired(m)) by {
                            assert(stl[0] == m);
                        }
                        assert(children@[idx as int].metrics@ =~= g);
                        assert(m.bytes <= sum_bytes(gr) && m.chars <= sum_chars(gr));
                        assert(g[0].bytes + m.bytes <= u64::MAX);
                        assert(g[0].chars + m.chars <= u64::MAX);
                    }
                }
                let ilen = children[idx].metrics.len();
                children[idx].merge_node(node, m, ilen, Ghost(hc));
                proof {
                    assert(old(metrics)@[idx as int].bytes == sum_bytes(g));
                    assert(m.bytes <= sum_bytes(gr) && m.chars <= sum_chars(gr));
                    assert(m.bytes <= old(metrics)@[idx as int + 1].bytes);
                    assert(m.chars <= old(metrics)@[idx as int + 1].chars);
                }
                let mv = metrics[idx].plus(m);
                metrics[idx] = mv;
                let mv2 = metrics[idx + 1].minus(m);
                metrics[idx + 1] = mv2;
                proof {
                    let child2 = children@[idx as int];
                    assert(children@ =~= oldcs.update(idx as int, child2).update(
                        idx as int + 1,
                        sib2,
                    ));
                    lemma_leaves_of_update2(oldcs, idx as int, child2, sib2);
                    assert(leaves_of(children@) =~= p2 + leaves(child2) + leaves(sib2) + s2);
                    if hc == 0 {
                        assert(leaves(child2) =~= seq![madd(g[0], m)]);
                        lemma_one_sum(madd(g[0], m));
                        let jj = p2.len() as int;
                        assert(leaves_of(oldcs.take(idx as int)).len() as int == jj);
                        assert(leaves_of(children@) =~= dmerge_right(lcl, jj)) by {
                            assert(lcl.take(jj) =~= p2);
                            assert(lcl.skip(jj + 2) =~= leaves(sib2) + s2);
                            assert(lcl[jj] == g[0]);
                            assert(lcl[jj + 1] == m) by {
                                assert(gr[0] == m);
                            }
                            assert(madd(lcl[jj], lcl[jj + 1]) == madd(g[0], m));
                        }
                    } else {
                        assert(leaves(child2) =~= g + stl);
                        lemma_sum_concat(g, stl);
                        assert(leaves_of(children@) =~= lcl);
                    }
                    assert(forall|i: int|
                        0 <= i < oldcs.len() && i != idx && i != idx + 1 ==> children@[i]
                            == oldcs[i] && metrics@[i] == old(metrics)@[i]);
                    assert(metrics@[idx as int].bytes == sum_bytes(leaves(child2)));
                    assert(metrics@[idx as int].chars == sum_chars(leaves(child2)));
                    assert(metrics@[idx as int + 1].bytes == sum_bytes(leaves(sib2)));
                    assert(metrics@[idx as int + 1].chars == sum_chars(leaves(sib2)));
                    assert(wf_node(children@[idx as int], hc));
                }
                true
            },
            None => {
                proof {
                    assert(children@ =~= oldcs);
                }
                false
            },
        }
    }

    /// Fix the pending child at `idx` by merging it with a sibling that is
    /// itself at its minimum: with the left one when there is one, else
    /// with the right one.
    #[verifier::rlimit(100)]
    fn rebal_merge(
        children: &mut Vec<Internal>,
        metrics: &mut Vec<Metric>,
        idx: usize,
        Ghost(hc): Ghost<nat>,
    )
        requires
            old(metrics)@.len() == old(children)@.len(),
            0 <= idx < old(children)@.len(),
            2 <= old(children)@.len() <= MAX,
            forall|i: int|
                0 <= i < old(children)@.len() && i != idx ==> wf_node(
                    #[trigger] old(children)@[i],
                    hc,
                ),
            forall|i: int|
                0 <= i < old(children)@.len() ==> (#[trigger] old(metrics)@[i]).bytes == sum_bytes(
                    leaves(old(children)@[i]),
                ) && old(metrics)@[i].chars == sum_chars(leaves(old(children)@[i])),
            pending(old(children)@[idx as int], hc),
            idx > 0 ==> old(children)@[idx as int - 1].metrics@.len() == (if hc == 0 {
                1int
            } else {
                MIN as int
            }),
            idx == 0 ==> old(children)@[1].metrics@.len() == (if hc == 0 {
                1int
            } else {
                MIN as int
            }),
            sum_bytes(leaves_of(old(children)@)) <= u64::MAX,
            sum_chars(leaves_of(old(children)@)) <= u64::MAX,
        ensures
            final(children)@.len() == old(children)@.len() - 1,
            final(metrics)@.len() == final(children)@.len(),
            forall|i: int|
                0 <= i < final(children)@.len() ==> wf_node(#[trigger] final(children)@[i], hc),
            forall|i: int|
                0 <= i < final(children)@.len() ==> (#[trigger] final(metrics)@[i]).bytes
                    == sum_bytes(leaves(final(children)@[i])) && final(metrics)@[i].chars
                    == sum_chars(leaves(final(children)@[i])),
            hc == 0 ==> ({
                let jj = leaves_of(old(children)@.take(idx as int)).len() as int;
                if idx > 0 {
                    leaves_of(final(children)@) == dmerge_left(leaves_of(old(children)@), jj)
                } else {
                    leaves_of(final(children)@) == dmerge_right(leaves_of(old(children)@), jj)
                }
            }),
            hc > 0 ==> leaves_of(final(children)@) == leaves_of(old(children)@),
    {
        let ghost oldcs = old(children)@;
        let ghost lcl = leaves_of(oldcs);
        let right_idx = if idx != 0 {
            idx
        } else {
            1
        };
        let ghost ri = right_idx as int;
        let ghost ga = leaves(oldcs[ri - 1]);
        let ghost gb = leaves(oldcs[ri]);
        let ghost p3 = leaves_of(oldcs.take(ri - 1));
        let ghost s3 = leaves_of(oldcs.skip(ri + 1));
        proof {
            lemma_leaves_of_update2(oldcs, ri - 1, oldcs[ri - 1], oldcs[ri]);
            assert(lcl =~= p3 + ga + gb + s3);
            lemma_sum_concat(p3 + ga + gb, s3);
            lemma_sum_concat(p3 + ga, gb);
            lemma_sum_concat(p3, ga);
            lemma_sum_nonneg(p3);
            lemma_sum_nonneg(s3);
            lemma_sum_nonneg(ga);
            lemma_sum_nonneg(gb);
            lemma_wf_paired(oldcs[(if idx != 0 { idx as int - 1 } else { 1 })], hc);
            if hc == 0 {
                lemma_wf_to_loose(oldcs[ri - 1], hc);
                lemma_wf_to_loose(oldcs[ri], hc);
            } else {
                if idx != 0 {
                    lemma_wf_to_loose(oldcs[ri - 1], hc);
                } else {
                    lemma_wf_to_loose(oldcs[ri], hc);
                }
            }
            if hc == 0 {
                assert(oldcs[ri - 1].metrics@ =~= ga);
                assert(oldcs[ri].metrics@ =~= gb);
                assert(ga =~= seq![ga[0]]);
                assert(gb =~= seq![gb[0]]);
                lemma_one_sum(ga[0]);
                lemma_one_sum(gb[0]);
                lemma_one_sum(madd(ga[0], gb[0]));
                assert(sum_bytes(ga) == ga[0].bytes && sum_chars(ga) == ga[0].chars);
                assert(sum_bytes(gb) == gb[0].bytes && sum_chars(gb) == gb[0].chars);
                assert(ga[0].bytes + gb[0].bytes <= u64::MAX);
                assert(ga[0].chars + gb[0].chars <= u64::MAX);
            }
        }
        let right_node = children.remove(right_idx);
        let right_metric = metrics.remove(right_idx);
        let ghost grn = right_node;
        let ghost csmid = children@;
        children[right_idx - 1].merge_sibling(right_node, Ghost(hc));
        proof {
            assert(old(metrics)@[ri - 1].bytes == sum_bytes(ga));
            assert(old(metrics)@[ri].bytes == sum_bytes(gb));
            assert(metrics@[ri - 1] == old(metrics)@[ri - 1]) by {
                assert(metrics@ =~= old(metrics)@.remove(ri));
            }
        }
        let mv = metrics[right_idx - 1].plus(right_metric);
        metrics[right_idx - 1] = mv;
        proof {
            let merged = children@[ri - 1];
            assert(children@ =~= oldcs.take(ri - 1) + seq![merged] + oldcs.skip(ri + 1)) by {
                assert(csmid =~= oldcs.remove(ri));
            }
            lemma_leaves_of_concat(oldcs.take(ri - 1) + seq![merged], oldcs.skip(ri + 1));
            lemma_leaves_of_concat(oldcs.take(ri - 1), seq![merged]);
            reveal_with_fuel(leaves_of, 2);
            assert(leaves_of(seq![merged]) =~= leaves(merged));
            assert(leaves_of(children@) =~= p3 + leaves(merged) + s3);
            if hc == 0 {
                let jj = leaves_of(oldcs.take(idx as int)).len() as int;
                if idx != 0 {
                    assert(ga.len() == 1 && gb.len() == 1);
                    assert(leaves(merged) =~= seq![madd(ga[0], gb[0])]);
                    assert(leaves_of(oldcs.take(idx as int)) =~= p3 + ga) by {
                        lemma_leaves_of_take_succ(oldcs, idx as int - 1);
                    }
                    assert(leaves_of(children@) =~= dmerge_left(lcl, jj)) by {
                        assert(lcl.take(jj - 1) =~= p3);
                        assert(lcl.skip(jj + 1) =~= s3);
                        assert(lcl[jj - 1] == ga[0]);
                        assert(lcl[jj] == gb[0]);
                    }
                } else {
                    assert(ga.len() == 1 && gb.len() == 1);
                    assert(leaves(merged) =~= seq![madd(ga[0], gb[0])]);
                    assert(p3 =~= Seq::<Metric>::empty()) by {
                        assert(oldcs.take(0) =~= Seq::<Internal>::empty());
                    }
                    assert(jj == 0);
                    assert(leaves_of(children@) =~= dmerge_right(lcl, 0)) by {
                        assert(lcl.take(0) =~= Seq::<Metric>::empty());
                        assert(lcl.skip(2) =~= s3);
                        assert(lcl[0] == ga[0]);
                        assert(lcl[1] == gb[0]);
                    }
                }
            } else {
                assert(leaves(merged) =~= ga + gb);
                lemma_sum_concat(ga, gb);
                assert(leaves_of(children@) =~= lcl);
            }
            assert(metrics@[ri - 1].bytes == sum_bytes(leaves(merged)));
            assert(metrics@[ri - 1].chars == sum_chars(leaves(merged)));
            assert(wf_node(children@[ri - 1], hc));
            assert(forall|i: int|
                0 <= i < ri - 1 ==> children@[i] == oldcs[i] && metrics@[i] == old(metrics)@[i]);
            assert(forall|i: int|
                ri <= i < children@.len() ==> children@[i] == oldcs[i + 1] && metrics@[i] == old(
                    metrics,
                )@[i + 1]);
        }
    }
}

impl Internal {
    /// Remove the leaf that strictly contains char position `pos.chars`;
    /// its metric is folded into a neighbouring leaf, so the tree's totals
    /// are unchanged. Deleting the final leaf leaves a sentinel of `(0, 0)`.
    pub fn delete(&mut self, pos: Metric)
        requires
            wf(*old(self)),
            pos.chars < sum_chars(leaves(*old(self))),
        ensures
            wf(*final(self)),
            ({
                let l0 = leaves(*old(self));
                if l0.len() == 1 {
                    leaves(*final(self)) == seq![mk(0, 0)]
                } else {
                    &&& del_rel(l0, dloc(l0, pos.chars as int), leaves(*final(self)))
                    &&& sum_bytes(leaves(*final(self))) == sum_bytes(l0)
                    &&& sum_chars(leaves(*final(self))) == sum_chars(l0)
                }
            }),
    {
        let ghost h = choose|h: nat| wf_node(*old(self), h);
        let ghost l0 = leaves(*old(self));
        proof {
            lemma_wf_paired(*old(self), h);
            lemma_wf_leaves_len(*old(self), h);
            lemma_dloc_bounds(l0, pos.chars as int);
        }
        let r = self.delete_impl(pos.chars, Ghost(h));
        let ghost pre = *self;
        if r {
            match &mut self.children {
                Children::Leaf(_) => {
                    self.metrics[0] = Metric { bytes: 0, chars: 0 };
                    proof {
                        assert(self.metrics@ =~= seq![mk(0, 0)]);
                        assert(all_paired(self.metrics@)) by {
                            assert(self.metrics@[0] == mk(0, 0));
                        }
                        assert(wf_node(*self, 0));
                        lemma_one_sum(mk(0, 0));
                    }
                },
                Children::Internal(cs) => {
                    let child = cs.pop().unwrap();
                    let ghost gc = child;
                    *self = child;
                    proof {
                        assert(leaves_of(pre.children->Internal_0@) =~= leaves(gc)) by {
                            assert(pre.children->Internal_0@ =~= seq![gc]);
                            reveal_with_fuel(leaves_of, 2);
                        }
                        assert(wf_node(*self, (h - 1) as nat));
                    }
                },
            }
        }
        proof {
            if l0.len() > 1 {
                let j = dloc(l0, pos.chars as int);
                if j > 0 && leaves(*self) == dmerge_left(l0, j) {
                    lemma_dmerge_props(l0, j, true);
                } else {
                    lemma_dmerge_props(l0, j, false);
                }
            }
        }
    }

    #[verifier::rlimit(100)]
    fn delete_impl(&mut self, cp0: u64, Ghost(h): Ghost<nat>) -> (r: bool)
        requires
            wf_node(*old(self), h),
            cp0 < sum_chars(leaves(*old(self))),
            sum_bytes(leaves(*old(self))) <= u64::MAX,
            sum_chars(leaves(*old(self))) <= u64::MAX,
        ensures
            ({
                let l0 = leaves(*old(self));
                let j = dloc(l0, cp0 as int);
                if r {
                    if h == 0 {
                        *final(self) == *old(self) && l0.len() == 1
                    } else {
                        &&& wf_loose(*final(self), h)
                        &&& final(self).metrics@.len() == 1
                        &&& del_rel(l0, j, leaves(*final(self)))
                    }
                } else {
                    wf_node(*final(self), h) && del_rel(l0, j, leaves(*final(self)))
                }
            }),
        decreases h,
    {
        let ghost l0 = leaves(*old(self));
        let ghost jg = dloc(l0, cp0 as int);
        let n = self.metrics.len();
        proof {
            lemma_sum_nonneg(l0);
            lemma_wf_leaves_len(*self, h);
            lemma_wf_paired(*self, h);
            lemma_dloc_bounds(l0, cp0 as int);
            assert(leaf_prefix(*self, 0) =~= Seq::<Metric>::empty());
            lemma_leaf_prefix_suffix(*self, 0);
            assert(leaf_suffix(*self, 0) =~= l0);
        }
        let mut idx: usize = 0;
        let mut cp = cp0;
        while self.metrics[idx].chars <= cp
            invariant
                *self == *old(self),
                wf_node(*self, h),
                n == self.metrics@.len(),
                1 <= n,
                0 <= idx < n,
                l0 == leaves(*self),
                sum_bytes(l0) <= u64::MAX,
                sum_chars(l0) <= u64::MAX,
                all_paired(l0),
                cp == cp0 - sum_chars(leaf_prefix(*self, idx as int)),
                cp >= 0,
                cp < sum_chars(leaf_suffix(*self, idx as int)),
                jg == leaf_prefix(*self, idx as int).len() + dloc(
                    leaf_suffix(*self, idx as int),
                    cp as int,
                ),
            decreases n - idx,
        {
            proof {
                lemma_step_sums(*self, h, idx as int);
                let suf = leaf_suffix(*self, idx as int);
                let suf1 = leaf_suffix(*self, idx as int + 1);
                let g: Seq<Metric> = match &self.children {
                    Children::Leaf(_) => seq![self.metrics@[idx as int]],
                    Children::Internal(cs) => leaves(cs@[idx as int]),
                };
                assert(suf =~= g + suf1);
                assert(sum_chars(g) == self.metrics@[idx as int].chars as int) by {
                    match &self.children {
                        Children::Leaf(_) => {
                            lemma_one_sum(self.metrics@[idx as int]);
                        },
                        Children::Internal(_) => {},
                    }
                }
                assert(g.len() >= 1) by {
                    match &self.children {
                        Children::Leaf(_) => {},
                        Children::Internal(cs) => {
                            lemma_wf_leaves_len(cs@[idx as int], (h - 1) as nat);
                        },
                    }
                }
                lemma_sum_concat(g, suf1);
                // cp does not run out before the end, so more leaves follow
                assert(sum_chars(suf1) > 0);
                assert(suf1.len() >= 1) by {
                    if suf1.len() == 0 {
                        assert(suf1 =~= Seq::<Metric>::empty());
                    }
                }
                lemma_suffix_len(*self, h, idx as int);
                assert(idx + 1 < n) by {
                    if idx + 1 == n {
                        assert(leaf_suffix(*self, n as int) =~= Seq::<Metric>::empty());
                    }
                }
                lemma_dloc_skip(g, suf1, cp as int);
                assert(leaf_prefix(*self, idx as int + 1) =~= leaf_prefix(*self, idx as int) + g)
                    by {
                    match &self.children {
                        Children::Leaf(_) => {},
                        Children::Internal(cs) => {
                            lemma_leaves_of_take_succ(cs@, idx as int);
                        },
                    }
                }
                lemma_sum_concat(leaf_prefix(*self, idx as int), g);
            }
            cp = cp - self.metrics[idx].chars;
            idx = idx + 1;
        }
        let ghost suf = leaf_suffix(*self, idx as int);
        let ghost suf1 = leaf_suffix(*self, idx as int + 1);
        let ghost pfx = leaf_prefix(*self, idx as int);
        proof {
            lemma_step_sums(*self, h, idx as int);
            lemma_leaf_prefix_suffix(*self, idx as int);
            assert(pfx + suf =~= l0);
            lemma_sum_concat(pfx, suf);
            lemma_sum_nonneg(pfx);
            lemma_sum_nonneg(suf1);
        }
        match &mut self.children {
            Children::Leaf(ls) => {
                proof {
                    assert(suf =~= self.metrics@.skip(idx as int));
                    assert(pfx =~= self.metrics@.take(idx as int));
                    assert(l0 =~= self.metrics@);
                    assert(dloc(suf, cp as int) == 0);
                    assert(jg == idx);
                }
                if ls.len() > 1 {
                    let doomed = self.metrics[idx];
                    if idx == 0 {
                        proof {
                            lemma_sum_two_elems(l0, 0, 1);
                        }
                        let mv = self.metrics[1].plus(doomed);
                        self.metrics[1] = mv;
                    } else {
                        proof {
                            lemma_sum_two_elems(l0, idx as int - 1, idx as int);
                        }
                        let mv = self.metrics[idx - 1].plus(doomed);
                        self.metrics[idx - 1] = mv;
                    }
                    ls.remove(idx);
                    self.metrics.remove(idx);
                    proof {
                        if idx == 0 {
                            assert(self.metrics@ =~= dmerge_right(l0, 0)) by {
                                assert(l0.take(0) =~= Seq::<Metric>::empty());
                            }
                            lemma_dmerge_props(l0, 0, false);
                            assert(leaves(*self) == dmerge_right(l0, jg));
                        } else {
                            assert(self.metrics@ =~= dmerge_left(l0, idx as int));
                            lemma_dmerge_props(l0, idx as int, true);
                            assert(leaves(*self) == dmerge_left(l0, jg));
                        }
                        assert(wf_node(*self, h));
                    }
                    false
                } else {
                    true
                }
            },
            Children::Internal(cs) => {
                let ghost oldcs = cs@;
                let ghost g = leaves(cs@[idx as int]);
                let ghost jc = dloc(g, cp as int);
                proof {
                    assert(suf =~= g + suf1);
                    lemma_wf_leaves_len(oldcs[idx as int], (h - 1) as nat);
                    lemma_wf_paired(oldcs[idx as int], (h - 1) as nat);
                    assert(cp < sum_chars(g));
                    lemma_dloc_descend(g, suf1, cp as int);
                    assert(dloc(suf, cp as int) == jc);
                    assert(jg == pfx.len() + jc);
                    lemma_dloc_bounds(g, cp as int);
                    lemma_sum_concat(g, suf1);
                    lemma_sum_nonneg(g);
                }
                let needs = cs[idx].delete_impl(cp, Ghost((h - 1) as nat));
                if !needs {
                    proof {
                        let gd = leaves(cs@[idx as int]);
                        lemma_leaves_of_update(oldcs, idx as int, cs@[idx as int]);
                        assert(leaves(*self) =~= pfx + gd + suf1);
                        if jc > 0 && gd == dmerge_left(g, jc) {
                            lemma_dmerge_props(g, jc, true);
                            lemma_dmerge_embed(pfx, g, suf1, jc);
                            assert(pfx + g + suf1 =~= l0);
                            assert(pfx + gd + suf1 == dmerge_left(l0, jg));
                        } else {
                            assert(jc < g.len() - 1 && gd == dmerge_right(g, jc));
                            lemma_dmerge_props(g, jc, false);
                            lemma_dmerge_embed(pfx, g, suf1, jc);
                            assert(pfx + g + suf1 =~= l0);
                            assert(pfx + gd + suf1 == dmerge_right(l0, jg));
                        }
                        assert(wf_node(*self, h)) by {
                            assert(forall|i: int|
                                0 <= i < oldcs.len() && i != idx ==> cs@[i] == oldcs[i]);
                        }
                    }
                    false
                } else {
                    proof {
                        if h == 1 {
                            assert(cs@[idx as int] == oldcs[idx as int]);
                            assert(cs@ =~= oldcs);
                            assert(g.len() == 1);
                            assert(jc == 0);
                            lemma_one_sum(g[0]);
                        }
                        if h == 1 {
                            assert(wf_node(oldcs[idx as int], 0));
                            assert(oldcs[idx as int].children is Leaf);
                            assert(leaves(oldcs[idx as int]) == oldcs[idx as int].metrics@);
                            assert(cs@[idx as int].metrics@ =~= g);
                        }
                        assert(pending(cs@[idx as int], (h - 1) as nat));
                        assert(cs@ == oldcs.update(idx as int, cs@[idx as int]));
                        lemma_leaves_of_update(oldcs, idx as int, cs@[idx as int]);
                        assert(leaves_of(cs@) =~= pfx + leaves(cs@[idx as int]) + suf1);
                        if h != 1 {
                            let gd = leaves(cs@[idx as int]);
                            if jc > 0 && gd == dmerge_left(g, jc) {
                                lemma_dmerge_props(g, jc, true);
                            } else {
                                lemma_dmerge_props(g, jc, false);
                            }
                        }
                        lemma_sum_concat(pfx + leaves(cs@[idx as int]), suf1);
                        lemma_sum_concat(pfx, leaves(cs@[idx as int]));
                    }
                    let ghost predel = cs@;
                    let ghost gd = leaves(cs@[idx as int]);
                    proof {
                        if idx > 0 {
                            lemma_leaves_of_take_succ(oldcs, idx as int - 1);
                            lemma_wf_leaves_len(oldcs[idx as int - 1], (h - 1) as nat);
                            lemma_sum_nonneg(leaves_of(oldcs.take(idx as int - 1)));
                            assert(pfx.len() >= 1) by {
                                assert(pfx =~= leaves_of(oldcs.take(idx as int - 1)) + leaves(
                                    oldcs[idx as int - 1],
                                ));
                            }
                        }
                        if idx + 1 < n {
                            lemma_suffix_len(*old(self), h, idx as int + 1);
                        }
                    }
                    let mut fixed = false;
                    let mut via_left = false;
                    if idx > 0 {
                        fixed = Self::rebal_steal_left(
                            cs,
                            &mut self.metrics,
                            idx,
                            Ghost((h - 1) as nat),
                        );
                        via_left = fixed;
                    }
                    if !fixed && idx + 1 < n {
                        fixed = Self::rebal_steal_right(
                            cs,
                            &mut self.metrics,
                            idx,
                            Ghost((h - 1) as nat),
                        );
                    }
                    let res = if fixed {
                        false
                    } else {
                        proof {
                            if idx > 0 {
                                assert(cs@[idx as int - 1].metrics@.len() == (if h == 1 {
                                    1int
                                } else {
                                    MIN as int
                                }));
                            }
                            if idx + 1 < n {
                                assert(cs@[idx as int + 1].metrics@.len() == (if h == 1 {
                                    1int
                                } else {
                                    MIN as int
                                }));
                            }
                        }
                        Self::rebal_merge(cs, &mut self.metrics, idx, Ghost((h - 1) as nat));
                        cs.len() < MIN
                    };
                    proof {
                        let jj = leaves_of(predel.take(idx as int)).len() as int;
                        assert(predel.take(idx as int) =~= oldcs.take(idx as int));
                        assert(leaves_of(predel.take(idx as int)) =~= pfx);
                        if h == 1 {
                            // the doomed leaf sat alone in child `idx`; the helper
                            // merged it into a neighbouring leaf
                            assert(jj == jg);
                            assert(leaves_of(predel) == l0) by {
                                assert(predel =~= oldcs);
                            }
                            if via_left {
                                assert(jg > 0);
                                assert(leaves_of(cs@) == dmerge_left(l0, jg));
                            } else if fixed {
                                assert(jg < l0.len() - 1) by {
                                    assert(l0 =~= pfx + g + suf1);
                                }
                                assert(leaves_of(cs@) == dmerge_right(l0, jg));
                            } else {
                                if idx > 0 {
                                    assert(jg > 0);
                                    assert(leaves_of(cs@) == dmerge_left(l0, jg));
                                } else {
                                    assert(jg < l0.len() - 1) by {
                                        assert(l0 =~= pfx + g + suf1);
                                    }
                                    assert(leaves_of(cs@) == dmerge_right(l0, jg));
                                }
                            }
                            assert(del_rel(l0, jg, leaves_of(cs@)));
                        } else {
                            // the helper only regrouped nodes; the child had already
                            // rewritten its leaves
                            assert(leaves_of(cs@) == leaves_of(predel));
                            assert(leaves_of(predel) =~= pfx + gd + suf1);
                            lemma_dmerge_embed(pfx, g, suf1, jc);
                            assert(pfx + g + suf1 =~= l0);
                            assert(del_rel(l0, jg, leaves_of(cs@)));
                        }
                        assert(leaves(*self) == leaves_of(cs@));
                        if !res {
                            assert(wf_node(*self, h));
                        } else {
                            assert(wf_loose(*self, h));
                            assert(self.metrics@.len() == 1);
                        }
                    }
                    res
                }
            },
        }
    }
}

/// Searching for a coordinate that falls on a leaf boundary returns the
/// exact cumulative metric of that boundary: the searched coordinate comes
/// back unchanged and the other coordinate is the prefix sum up to the
/// boundary. With `by_bytes` false this is the guarantee for char
/// searches, with `by_bytes` true the one for byte searches.
pub proof fn lemma_search_boundary(l: Seq<Metric>, j: int, by_bytes: bool)
    requires
        0 <= j <= l.len(),
        all_paired(l),
    ensures
        srch_b(l, keysum(l.take(j), by_bytes), by_bytes) == sum_bytes(l.take(j)),
        srch_c(l, keysum(l.take(j), by_bytes), by_bytes) == sum_chars(l.take(j)),
    decreases j,
{
    let k = keysum(l.take(j), by_bytes);
    if j == 0 {
        assert(l.take(0) =~= Seq::<Metric>::empty());
    } else {
        lemma_sum_first(l.take(j));
        lemma_sum_nonneg(l.take(j).drop_first());
        lemma_sum_nonneg(l.take(j));
        if k <= 0 {
            // a zero run of the walked coordinate is, the leaves being
            // paired, a zero run of both
            lemma_srch_paired_zero(l.take(j), Seq::empty(), by_bytes);
            assert(all_paired(l.take(j))) by {
                assert(forall|i: int| 0 <= i < j ==> l.take(j)[i] == l[i]);
            }
            assert(l.take(j) + Seq::<Metric>::empty() =~= l.take(j));
        } else {
            assert(l.len() >= 1);
            assert(l.take(j)[0] == l[0]);
            assert(k >= key(l[0], by_bytes));
            assert(all_paired(l.drop_first())) by {
                assert(forall|i: int|
                    0 <= i < l.drop_first().len() ==> l.drop_first()[i] == l[i + 1]);
            }
            assert(l.take(j).drop_first() =~= l.drop_first().take(j - 1));
            lemma_search_boundary(l.drop_first(), j - 1, by_bytes);
        }
    }
}

proof fn lemma_aloc_update_ge(l: Seq<Metric>, p: int, x: Metric)
    requires
        l.len() >= 1,
        x.chars >= l[aloc(l, p)].chars,
    ensures
        aloc(l.update(aloc(l, p), x), p) == aloc(l, p),
    decreases l.len(),
{
    lemma_aloc_bounds(l, p);
    let j = aloc(l, p);
    let l2 = l.update(j, x);
    if l.len() == 1 {
    } else if p <= l[0].chars {
        assert(l2[0] == x);
    } else {
        assert(j == 1 + aloc(l.drop_first(), p - l[0].chars));
        lemma_aloc_bounds(l.drop_first(), p - l[0].chars);
        assert(1 <= j < l.len());
        assert(l.drop_first()[j - 1] == l[j]);
        assert(l2.drop_first() =~= l.drop_first().update(j - 1, x));
        lemma_aloc_update_ge(l.drop_first(), p - l[0].chars, x);
        assert(l2[0] == l[0]);
    }
}

/// Adding and then removing the same `(position, delta)` restores every
/// leaf metric exactly, and with them every summary of the unchanged tree
/// shape.
pub proof fn lemma_add_remove_inverse(l: Seq<Metric>, p: int, d: Metric)
    requires
        l.len() >= 1,
        all_paired(l),
        add_ok(l, p, d),
    ensures
        sub_ok(upd_add(l, p, d), p, d),
        upd_sub(upd_add(l, p, d), p, d) == l,
{
    let j = aloc(l, p);
    lemma_aloc_bounds(l, p);
    lemma_sum_elem_bound(l, j);
    let x = madd(l[j], d);
    lemma_aloc_update_ge(l, p, x);
    let l2 = l.update(j, x);
    lemma_sum_update(l, j, x);
    assert(l2[j] == x);
    assert(msub(x, d) == l[j]);
    assert(l2.update(j, msub(l2[j], d)) =~= l);
    assert(0 <= p <= sum_chars(l2));
    assert(paired(l[j]));
    assert(paired(msub(l2[j], d)));
}

/// An insert at a position inside the text splits a leaf without changing
/// the totals; a following point delete folds a leaf into its neighbour,
/// which leaves the totals unchanged as well (that is its contract), so the
/// pair returns the index to its prior total metric.
pub proof fn lemma_insert_delete_total(l: Seq<Metric>, m: Metric)
    requires
        ins_ok(l, m),
        all_paired(l),
        m.chars < sum_chars(l),
    ensures
        sum_bytes(ins(l, m)) == sum_bytes(l),
        sum_chars(ins(l, m)) == sum_chars(l),
        ins(l, m).len() == l.len() + 1,
{
    lemma_ins_props(l, m);
}

/// The root's aggregate metric — the sum of its summary vector — equals
/// the sum of the leaf metrics read off by in-order traversal.
pub proof fn lemma_root_total_is_leaf_sum(n: Internal, h: nat)
    requires
        wf_node(n, h),
    ensures
        sum_bytes(n.metrics@) == sum_bytes(leaves(n)),
        sum_chars(n.metrics@) == sum_chars(leaves(n)),
    decreases n.metrics@.len(),
{
    lemma_summary_prefix(n, h, n.metrics@.len() as int);
    assert(n.metrics@.take(n.metrics@.len() as int) =~= n.metrics@);
    lemma_leaf_prefix_suffix(n, n.metrics@.len() as int);
    assert(leaf_suffix(n, n.metrics@.len() as int) =~= Seq::<Metric>::empty());
    assert(leaf_prefix(n, n.metrics@.len() as int) + Seq::<Metric>::empty() =~= leaf_prefix(
        n,
        n.metrics@.len() as int,
    ));
}

proof fn lemma_summary_prefix(n: Internal, h: nat, i: int)
    requires
        wf_node(n, h),
        0 <= i <= n.metrics@.len(),
    ensures
        sum_bytes(n.metrics@.take(i)) == sum_bytes(leaf_prefix(n, i)),
        sum_chars(n.metrics@.take(i)) == sum_chars(leaf_prefix(n, i)),
    decreases i,
{
    if i == 0 {
        assert(n.metrics@.take(0) =~= Seq::<Metric>::empty());
        assert(leaf_prefix(n, 0) =~= Seq::<Metric>::empty());
    } else {
        lemma_summary_prefix(n, h, i - 1);
        lemma_sum_take_succ(n.metrics@, i - 1);
        lemma_step_sums(n, h, i - 1);
    }
}

/// The leaves that survive deleting the span `[s, e)`, both bounds given
/// as metrics local to the sequence: each leaf loses its part of the span,
/// and a leaf with nothing left disappears.
pub open spec fn surv(l: Seq<Metric>, s: Metric, e: Metric) -> Seq<Metric>
    decreases l.len(),
{
    if l.len() == 0 {
        Seq::empty()
    } else {
        let m = l[0];
        let ds = if s.chars <= m.chars {
            s
        } else {
            m
        };
        let de = if e.chars <= m.chars {
            e
        } else {
            m
        };
        let kept = msub(m, msub(de, ds));
        let s1 = if s.chars <= m.chars {
            mk(0, 0)
        } else {
            msub(s, m)
        };
        let e1 = if e.chars <= m.chars {
            mk(0, 0)
        } else {
            msub(e, m)
        };
        let rest = surv(l.drop_first(), s1, e1);
        if kept.bytes == 0 && kept.chars == 0 {
            rest
        } else {
            seq![kept] + rest
        }
    }
}

/// Validity of a range deletion: at every leaf the byte coordinate of each
/// bound falls on the same side as its char coordinate, and what is left
/// of each cut leaf is an honest extent.
pub open spec fn sok(l: Seq<Metric>, s: Metric, e: Metric) -> bool
    decreases l.len(),
{
    if l.len() == 0 {
        s.bytes == 0 && s.chars == 0 && e.bytes == 0 && e.chars == 0
    } else {
        let m = l[0];
        let ds = if s.chars <= m.chars {
            s
        } else {
            m
        };
        let de = if e.chars <= m.chars {
            e
        } else {
            m
        };
        let s1 = if s.chars <= m.chars {
            mk(0, 0)
        } else {
            msub(s, m)
        };
        let e1 = if e.chars <= m.chars {
            mk(0, 0)
        } else {
            msub(e, m)
        };
        &&& s.bytes <= e.bytes && s.chars <= e.chars
        &&& (s.chars <= m.chars ==> s.bytes <= m.bytes)
        &&& (s.chars > m.chars ==> s.bytes >= m.bytes)
        &&& (e.chars <= m.chars ==> e.bytes <= m.bytes)
        &&& (e.chars > m.chars ==> e.bytes >= m.bytes)
        &&& ds.bytes <= de.bytes && ds.chars <= de.chars
        &&& paired(msub(m, msub(de, ds)))
        &&& sok(l.drop_first(), s1, e1)
    }
}

/// Surviving a valid range deletion removes exactly the span `[s, e)` from
/// the totals, and the survivors are paired.
pub proof fn lemma_surv_sums(l: Seq<Metric>, s: Metric, e: Metric)
    requires
        sok(l, s, e),
        e.bytes <= sum_bytes(l),
        e.chars <= sum_chars(l),
        sum_bytes(l) <= u64::MAX,
        sum_chars(l) <= u64::MAX,
    ensures
        sum_bytes(surv(l, s, e)) == sum_bytes(l) - (e.bytes - s.bytes),
        sum_chars(surv(l, s, e)) == sum_chars(l) - (e.chars - s.chars),
        all_paired(surv(l, s, e)),
    decreases l.len(),
{
    if l.len() == 0 {
        assert(surv(l, s, e) =~= Seq::<Metric>::empty());
    } else {
        let m = l[0];
        let ds = if s.chars <= m.chars {
            s
        } else {
            m
        };
        let de = if e.chars <= m.chars {
            e
        } else {
            m
        };
        let kept = msub(m, msub(de, ds));
        let s1 = if s.chars <= m.chars {
            mk(0, 0)
        } else {
            msub(s, m)
        };
        let e1 = if e.chars <= m.chars {
            mk(0, 0)
        } else {
            msub(e, m)
        };
        lemma_sum_first(l);
        lemma_sum_nonneg(l.drop_first());
        lemma_surv_sums(l.drop_first(), s1, e1);
        let rest = surv(l.drop_first(), s1, e1);
        if kept.bytes == 0 && kept.chars == 0 {
        } else {
            lemma_sum_first(seq![kept] + rest);
            assert((seq![kept] + rest)[0] == kept);
            assert((seq![kept] + rest).drop_first() =~= rest);
            assert forall|i: int| 0 <= i < surv(l, s, e).len() implies paired(
                #[trigger] surv(l, s, e)[i],
            ) by {
                if i >= 1 {
                    assert(surv(l, s, e)[i] == rest[i - 1]);
                }
            }
        }
    }
}

/// Appending past the end of the text is a valid insert, and it pushes the
/// residual metric as a new trailing leaf.
pub proof fn lemma_ins_append(l: Seq<Metric>, x: Metric)
    requires
        l.len() >= 1,
        x.bytes >= sum_bytes(l),
        x.chars >= sum_chars(l),
        paired(msub(x, mk(sum_bytes(l), sum_chars(l)))),
        sum_bytes(l) <= u64::MAX,
        sum_chars(l) <= u64::MAX,
    ensures
        ins_ok(l, x),
        ins(l, x) == l.push(msub(x, mk(sum_bytes(l), sum_chars(l)))),
    decreases l.len(),
{
    lemma_sum_first(l);
    lemma_sum_nonneg(l.drop_first());
    lemma_sum_nonneg(l);
    if l.len() == 1 {
        assert(ins(l, x) =~= l.push(msub(x, mk(sum_bytes(l), sum_chars(l)))));
    } else {
        let x1 = msub(x, l[0]);
        assert(msub(x1, mk(sum_bytes(l.drop_first()), sum_chars(l.drop_first()))) == msub(
            x,
            mk(sum_bytes(l), sum_chars(l)),
        ));
        lemma_ins_append(l.drop_first(), x1);
        assert(ins(l, x) =~= seq![l[0]] + ins(l.drop_first(), x1));
        assert(seq![l[0]] + l.drop_first().push(
            msub(x1, mk(sum_bytes(l.drop_first()), sum_chars(l.drop_first()))),
        ) =~= l.push(msub(x, mk(sum_bytes(l), sum_chars(l)))));
    }
}

impl Internal {
    /// Append the in-order leaf metrics of this subtree to `out`.
    fn collect_leaves(&self, out: &mut Vec<Metric>, Ghost(h): Ghost<nat>)
        requires
            wf_node(*self, h),
        ensures
            final(out)@ == old(out)@ + leaves(*self),
        decreases h,
    {
        match &self.children {
            Children::Leaf(_) => {
                out.extend_from_slice(self.metrics.as_slice());
                proof {
                    assert(final(out)@ =~= old(out)@ + leaves(*self));
                }
            },
            Children::Internal(cs) => {
                let n = cs.len();
                let mut i: usize = 0;
                proof {
                    assert(leaf_prefix(*self, 0) =~= Seq::<Metric>::empty());
                    assert(out@ =~= old(out)@ + leaf_prefix(*self, 0));
                }
                while i < n
                    invariant
                        wf_node(*self, h),
                        n == self.metrics@.len(),
                        self.children == Children::Internal(*cs),
                        n == cs@.len(),
                        0 <= i <= n,
                        h >= 1,
                        out@ == old(out)@ + leaf_prefix(*self, i as int),
                    decreases n - i,
                {
                    proof {
                        lemma_leaves_of_take_succ(cs@, i as int);
                    }
                    cs[i].collect_leaves(out, Ghost((h - 1) as nat));
                    proof {
                        assert(out@ =~= old(out)@ + leaf_prefix(*self, i as int + 1));
                    }
                    i = i + 1;
                }
                proof {
                    assert(cs@.take(n as int) =~= cs@);
                }
            },
        }
    }

    /// Delete the span `[start, end)`: every leaf loses its part of the
    /// span; leaves wholly inside it disappear. The index is regathered
    /// from the surviving leaves behind a fresh sentinel, so the totals
    /// drop by exactly `end - start`.
    pub fn delete_range(&mut self, start: Metric, end: Metric)
        requires
            wf(*old(self)),
            sok(leaves(*old(self)), start, end),
            end.bytes <= sum_bytes(leaves(*old(self))),
            end.chars <= sum_chars(leaves(*old(self))),
        ensures
            wf(*final(self)),
            leaves(*final(self)) == seq![mk(0, 0)] + surv(leaves(*old(self)), start, end),
            sum_bytes(leaves(*final(self))) == sum_bytes(leaves(*old(self))) - (end.bytes
                - start.bytes),
            sum_chars(leaves(*final(self))) == sum_chars(leaves(*old(self))) - (end.chars
                - start.chars),
    {
        let ghost h = choose|h: nat| wf_node(*old(self), h);
        let ghost l0 = leaves(*old(self));
        proof {
            lemma_surv_sums(l0, start, end);
        }
        let mut v: Vec<Metric> = Vec::new();
        self.collect_leaves(&mut v, Ghost(h));
        let kept = Self::trim_range(&v, start, end);
        let ghost sv = surv(l0, start, end);
        let mut fresh = new_root();
        let nk = kept.len();
        let mut j: usize = 0;
        let mut total = Metric::zero();
        proof {
            lemma_one_sum(mk(0, 0));
            assert(seq![mk(0, 0)] + sv.take(0) =~= seq![mk(0, 0)]);
            lemma_sum_nonneg(sv);
        }
        while j < nk
            invariant
                nk == kept@.len(),
                kept@ == sv,
                0 <= j <= nk,
                wf(fresh),
                leaves(fresh) == seq![mk(0, 0)] + sv.take(j as int),
                total.bytes == sum_bytes(sv.take(j as int)),
                total.chars == sum_chars(sv.take(j as int)),
                sum_bytes(sv) <= u64::MAX,
                sum_chars(sv) <= u64::MAX,
                all_paired(sv),
            decreases nk - j,
        {
            let m = kept[j];
            proof {
                lemma_sum_take_succ(sv, j as int);
                lemma_sum_split(sv, j as int + 1);
                lemma_sum_nonneg(sv.skip(j as int + 1));
                lemma_sum_nonneg(sv.take(j as int));
                let cur = leaves(fresh);
                lemma_sum_first(cur);
                assert(cur.drop_first() =~= sv.take(j as int));
                assert(sum_bytes(cur) == sum_bytes(sv.take(j as int)));
                assert(sum_chars(cur) == sum_chars(sv.take(j as int)));
                assert(paired(msub(madd(total, m), mk(sum_bytes(cur), sum_chars(cur))))) by {
                    assert(paired(sv[j as int]));
                }
                lemma_ins_append(cur, madd(total, m));
                assert(cur.push(msub(madd(total, m), mk(sum_bytes(cur), sum_chars(cur)))) =~= seq![
                    mk(0, 0),
                ] + sv.take(j as int + 1)) by {
                    assert(msub(madd(total, m), mk(sum_bytes(cur), sum_chars(cur))) == sv[j as int]);
                }
            }
            let needle = total.plus(m);
            fresh.insert(needle);
            total = needle;
            j = j + 1;
        }
        *self = fresh;
        proof {
            assert(sv.take(nk as int) =~= sv);
            lemma_sum_concat(seq![mk(0, 0)], sv);
            lemma_one_sum(mk(0, 0));
        }
    }

    /// Walk the leaves once, keeping from each what lies outside `[s, e)`.
    fn trim_range(v: &Vec<Metric>, start: Metric, end: Metric) -> (out: Vec<Metric>)
        requires
            sok(v@, start, end),
        ensures
            out@ == surv(v@, start, end),
    {
        let mut out: Vec<Metric> = Vec::new();
        let n = v.len();
        let mut i: usize = 0;
        let mut s = start;
        let mut e = end;
        proof {
            assert(v@.skip(0) =~= v@);
        }
        while i < n
            invariant
                n == v@.len(),
                0 <= i <= n,
                sok(v@.skip(i as int), s, e),
                surv(v@, start, end) == out@ + surv(v@.skip(i as int), s, e),
            decreases n - i,
        {
            let m = v[i];
            proof {
                assert(v@.skip(i as int)[0] == m);
                assert(v@.skip(i as int).drop_first() =~= v@.skip(i as int + 1));
            }
            let ds = if s.chars <= m.chars {
                s
            } else {
                m
            };
            let de = if e.chars <= m.chars {
                e
            } else {
                m
            };
            let cut = de.minus(ds);
            let kept = m.minus(cut);
            if s.chars <= m.chars {
                s = Metric { bytes: 0, chars: 0 };
            } else {
                s = s.minus(m);
            }
            if e.chars <= m.chars {
                e = Metric { bytes: 0, chars: 0 };
            } else {
                e = e.minus(m);
            }
            if kept.bytes != 0 || kept.chars != 0 {
                out.push(kept);
                proof {
                    assert(out@ + surv(v@.skip(i as int + 1), s, e) =~= out@.drop_last() + (seq![
                        kept,
                    ] + surv(v@.skip(i as int + 1), s, e)));
                }
            }
            i = i + 1;
        }
        proof {
            assert(v@.skip(n as int) =~= Seq::<Metric>::empty());
            assert(out@ + Seq::<Metric>::empty() =~= out@);
        }
        out
    }
}

impl Internal {
    /// A textual picture of the node: its summary vector, then its
    /// children in brackets, pre-order.
    pub fn render(&self) -> (r: String)
        ensures
            r@.len() > 0,
    {
        let mut out = String::new();
        self.render_into(&mut out);
        out.push(']') ;
        out
    }

    fn render_into(&self, out: &mut String)
        decreases *self,
    {
        out.push('[');
        let n = self.metrics.len();
        let mut i: usize = 0;
        while i < n
            invariant
                n == self.metrics@.len(),
                0 <= i <= n,
            decreases n - i,
        {
            if i > 0 {
                out.push(' ');
            }
            out.push('(');
            out.push('b');
            out.push(':');
            let b = crate::display::u64_to_string(self.metrics[i].bytes);
            out.append(b.as_str());
            out.push(',');
            out.push('c');
            out.push(':');
            let c = crate::display::u64_to_string(self.metrics[i].chars);
            out.append(c.as_str());
            out.push(')');
            i = i + 1;
        }
        match &self.children {
            Children::Leaf(_) => {},
            Children::Internal(cs) => {
                let cn = cs.len();
                let mut j: usize = 0;
                while j < cn
                    invariant
                        self.children == Children::Internal(*cs),
                        cn == cs@.len(),
                        0 <= j <= cn,
                    decreases cn - j,
                {
                    proof {
                        assert(decreases_to!(*self => self.children->Internal_0@[j as int]));
                        assert(self.children->Internal_0@[j as int] == cs@[j as int]);
                    }
                    out.push(' ');
                    cs[j].render_into(out);
                    out.push(']');
                    j = j + 1;
                }
            },
        }
    }
}

/// Advancing past child `i` extends the leaf prefix by that child's leaves,
/// whose sums are the child's summary entry.
proof fn lemma_step_sums(n: Internal, h: nat, i: int)
    requires
        wf_node(n, h),
        0 <= i < n.metrics@.len(),
    ensures
        sum_bytes(leaf_prefix(n, i + 1)) == sum_bytes(leaf_prefix(n, i)) + n.metrics@[i].bytes,
        sum_chars(leaf_prefix(n, i + 1)) == sum_chars(leaf_prefix(n, i)) + n.metrics@[i].chars,
        leaf_suffix(n, i) == match n.children {
            Children::Leaf(_) => seq![n.metrics@[i]] + leaf_suffix(n, i + 1),
            Children::Internal(cs) => leaves(cs@[i]) + leaf_suffix(n, i + 1),
        },
        n.metrics@[i].bytes == match n.children {
            Children::Leaf(_) => n.metrics@[i].bytes as int,
            Children::Internal(cs) => sum_bytes(leaves(cs@[i])),
        },
        n.metrics@[i].chars == match n.children {
            Children::Leaf(_) => n.metrics@[i].chars as int,
            Children::Internal(cs) => sum_chars(leaves(cs@[i])),
        },
{
    match n.children {
        Children::Leaf(_) => {
            lemma_sum_take_succ(n.metrics@, i);
            assert(n.metrics@.skip(i) =~= seq![n.metrics@[i]] + n.metrics@.skip(i + 1));
        },
        Children::Internal(cs) => {
            lemma_leaves_of_take_succ(cs@, i);
            lemma_sum_concat(leaves_of(cs@.take(i)), leaves(cs@[i]));
            assert(cs@.skip(i) =~= seq![cs@[i]] + cs@.skip(i + 1));
            lemma_leaves_of_concat(seq![cs@[i]], cs@.skip(i + 1));
            assert(seq![cs@[i]].drop_first() =~= Seq::<Internal>::empty());
            reveal_with_fuel(leaves_of, 2);
            assert(leaves_of(seq![cs@[i]]) =~= leaves(cs@[i]));
        },
    }
}

/// Make an empty index: a root holding a single sentinel leaf of metric
/// `(0, 0)`.
pub fn new_root() -> (r: Internal)
    ensures
        wf(r),
        leaves(r) == seq![mk(0, 0)],
{
    let mut metrics: Vec<Metric> = Vec::new();
    metrics.push(Metric { bytes: 0, chars: 0 });
    let mut ls: Vec<Leaf> = Vec::new();
    ls.push(Leaf {});
    let r = Internal { metrics, children: Children::Leaf(ls) };
    proof {
        assert(wf_node(r, 0));
        assert(leaves(r) =~= seq![mk(0, 0)]);
        assert(sum_bytes(leaves(r)) == 0) by {
            reveal_with_fuel(sum_bytes, 2);
        }
        assert(sum_chars(leaves(r)) == 0) by {
            reveal_with_fuel(sum_chars, 2);
        }
    }
    r
}

} // verus!
