//! Sierpinski triangles by a worklist of subdivisions.
//!
//! Geometry is kept exact in integers. The root triangle has height
//! `H = height_num / height_den`. A triangle at depth `d` has height
//! `H / 2^d`, and its centre lies `(x, y) * H / 2^(d + 1)` away from the root
//! centre. A triangle of height at least ten is split into three of half its
//! height, each moved a quarter of the parent's height towards one corner.

use vstd::arithmetic::div_mod::lemma_fundamental_div_mod;
use vstd::arithmetic::power::pow;
use vstd::arithmetic::power2::{lemma2_to64, lemma_pow2_pos, lemma_pow2_unfold, pow2};
use vstd::bits::lemma_u64_shr_is_div;
use vstd::prelude::*;

verus! {

/// Which way a triangle points.
#[derive(Clone, Copy, Debug, PartialEq, Eq, Structural)]
pub enum TriangleDirection {
    Up,
    Down,
}

impl TriangleDirection {
    /// The opposite direction.
    pub fn other(self) -> (r: Self)
        ensures
            r != self,
    {
        match self {
            TriangleDirection::Up => TriangleDirection::Down,
            TriangleDirection::Down => TriangleDirection::Up,
        }
    }
}

/// One triangle of the subdivision, placed relative to the root (see the
/// module documentation).
#[derive(Clone, Copy, Debug, PartialEq, Eq, Structural)]
pub struct Triangle {
    pub x: i64,
    pub y: i64,
    pub depth: u32,
    pub direction: TriangleDirection,
}

/// The smallest height that is still split.
pub const MIN_HEIGHT: u64 = 10;

/// A triangle at depth `depth` under a root of height `num / den` is split:
/// its height `num / (den 2^depth)` is at least ten.
pub open spec fn subdivides(num: int, den: int, depth: nat) -> bool {
    num >= MIN_HEIGHT * den * pow2(depth)
}

/// The sign that moves children towards the corners.
pub open spec fn corner_sign(direction: TriangleDirection) -> int {
    match direction {
        TriangleDirection::Up => 1,
        TriangleDirection::Down => -1,
    }
}

/// The three halves of `t`, in the order they are pushed on the worklist.
pub open spec fn children(t: Triangle) -> Seq<Triangle> {
    let f = corner_sign(t.direction);
    let d = (t.depth + 1) as u32;
    seq![
        Triangle { x: (2 * t.x - f) as i64, y: (2 * t.y - f) as i64, depth: d, direction: t.direction },
        Triangle { x: (2 * t.x + f) as i64, y: (2 * t.y - f) as i64, depth: d, direction: t.direction },
        Triangle { x: (2 * t.x) as i64, y: (2 * t.y + f) as i64, depth: d, direction: t.direction },
    ]
}

/// The first depth from `depth` on at which a triangle is not split.
pub open spec fn leaf_search(num: int, den: int, depth: nat) -> nat
    decreases 64 - depth,
{
    if depth >= 64 || !subdivides(num, den, depth) {
        depth
    } else {
        leaf_search(num, den, depth + 1)
    }
}

/// The depth of the smallest triangles: the first depth at which a triangle
/// is no longer split.
pub open spec fn leaf_depth(num: int, den: int) -> nat {
    leaf_search(num, den, 0)
}

/// The number of triangles in a full ternary tree with `levels` levels below
/// the root.
pub open spec fn ternary_tree_size(levels: nat) -> nat
    decreases levels,
{
    if levels == 0 {
        1
    } else {
        1 + 3 * ternary_tree_size((levels - 1) as nat)
    }
}

/// The triangles still to be drawn from the worklist `s`, each with the
/// whole tree below it.
pub open spec fn outstanding(s: Seq<Triangle>, leaf: nat) -> nat
    decreases s.len(),
{
    if s.len() == 0 {
        0
    } else {
        outstanding(s.drop_last(), leaf) + ternary_tree_size((leaf - s.last().depth) as nat)
    }
}

proof fn lemma_subdivides_monotone(num: int, den: int, a: nat, b: nat)
    requires
        den >= 1,
        a <= b,
        subdivides(num, den, b),
    ensures
        subdivides(num, den, a),
    decreases b - a,
{
    if a < b {
        lemma_pow2_unfold(b);
        lemma_pow2_pos((b - 1) as nat);
        assert(MIN_HEIGHT * den * pow2((b - 1) as nat) <= MIN_HEIGHT * den * pow2(b))
            by (nonlinear_arith)
            requires
                pow2(b) == 2 * pow2((b - 1) as nat),
                den >= 1,
                pow2((b - 1) as nat) > 0,
        ;
        lemma_subdivides_monotone(num, den, a, (b - 1) as nat);
    }
}

proof fn lemma_no_split_at_61(num: int, den: int)
    requires
        0 <= num <= u64::MAX,
        den >= 1,
    ensures
        !subdivides(num, den, 61),
{
    lemma2_to64();
    vstd::arithmetic::power2::lemma2_to64_rest();
    assert(MIN_HEIGHT * den * pow2(61) >= MIN_HEIGHT * pow2(61)) by (nonlinear_arith)
        requires
            den >= 1,
            pow2(61) > 0,
    ;
}

proof fn lemma_leaf_search(num: int, den: int, depth: nat)
    requires
        0 <= num <= u64::MAX,
        den >= 1,
        depth <= 61,
        forall|d: nat| d < depth ==> subdivides(num, den, d),
    ensures
        leaf_search(num, den, depth) <= 61,
        !subdivides(num, den, leaf_search(num, den, depth)),
        forall|d: nat| d < leaf_search(num, den, depth) ==> subdivides(num, den, d),
    decreases 64 - depth,
{
    lemma_no_split_at_61(num, den);
    if subdivides(num, den, depth) {
        assert(depth < 61);
        assert forall|d: nat| d < depth + 1 implies subdivides(num, den, d) by {
            if d == depth {
            }
        }
        lemma_leaf_search(num, den, depth + 1);
    }
}

/// The leaf depth is the first depth that is not split, and it is at most
/// sixty-one.
pub proof fn lemma_leaf_depth(num: int, den: int)
    requires
        0 <= num <= u64::MAX,
        den >= 1,
    ensures
        leaf_depth(num, den) <= 61,
        !subdivides(num, den, leaf_depth(num, den)),
        forall|d: nat| d < leaf_depth(num, den) ==> subdivides(num, den, d),
{
    lemma_leaf_search(num, den, 0);
}

/// A full ternary tree with `levels` levels below its root holds
/// `(3^(levels + 1) - 1) / 2` triangles.
pub proof fn lemma_ternary_tree_size(levels: nat)
    ensures
        2 * ternary_tree_size(levels) + 1 == pow(3, levels + 1),
    decreases levels,
{
    reveal(pow);
    assert(pow(3, levels + 1) == 3 * pow(3, levels));
    if levels > 0 {
        lemma_ternary_tree_size((levels - 1) as nat);
        assert(((levels - 1) as nat) + 1 == levels);
    } else {
        assert(pow(3, 0) == 1);
    }
}

/// The smallest triangles have height below ten; unless the root itself is
/// the only one, their height is at least five.
pub proof fn lemma_leaf_height(num: int, den: int)
    requires
        0 <= num <= u64::MAX,
        den >= 1,
    ensures
        num < MIN_HEIGHT * den * pow2(leaf_depth(num, den)),
        leaf_depth(num, den) > 0 ==> (MIN_HEIGHT / 2) * den * pow2(leaf_depth(num, den)) <= num,
{
    lemma_leaf_depth(num, den);
    let l = leaf_depth(num, den);
    if l > 0 {
        assert(subdivides(num, den, (l - 1) as nat));
        lemma_pow2_unfold(l);
        assert((MIN_HEIGHT / 2) * den * pow2(l) == MIN_HEIGHT * den * pow2((l - 1) as nat))
            by (nonlinear_arith)
            requires
                pow2(l) == 2 * pow2((l - 1) as nat),
        ;
    }
}

/// The order in which the worklist draws `t` and the `levels` levels of
/// triangles below it: `t` first, then the tree of each half, the last
/// half pushed first.
pub open spec fn subdivision_order(t: Triangle, levels: nat) -> Seq<Triangle>
    decreases levels,
{
    if levels == 0 {
        seq![t]
    } else {
        let c = children(t);
        let below = (levels - 1) as nat;
        seq![t] + subdivision_order(c[2], below) + subdivision_order(c[1], below)
            + subdivision_order(c[0], below)
    }
}

/// The root triangle of every subdivision.
pub open spec fn root_triangle() -> Triangle {
    Triangle { x: 0, y: 0, depth: 0, direction: TriangleDirection::Down }
}

/// What the worklist `s` still draws, top first.
pub open spec fn pending_order(s: Seq<Triangle>, leaf: nat) -> Seq<Triangle>
    decreases s.len(),
{
    if s.len() == 0 {
        Seq::empty()
    } else {
        subdivision_order(s.last(), (leaf - s.last().depth) as nat) + pending_order(
            s.drop_last(),
            leaf,
        )
    }
}

proof fn lemma_subdivision_order_len(t: Triangle, levels: nat)
    ensures
        subdivision_order(t, levels).len() == ternary_tree_size(levels),
    decreases levels,
{
    if levels > 0 {
        let c = children(t);
        let below = (levels - 1) as nat;
        lemma_subdivision_order_len(c[0], below);
        lemma_subdivision_order_len(c[1], below);
        lemma_subdivision_order_len(c[2], below);
    }
}

proof fn lemma_pending_order_len(s: Seq<Triangle>, leaf: nat)
    ensures
        pending_order(s, leaf).len() == outstanding(s, leaf),
    decreases s.len(),
{
    if s.len() > 0 {
        lemma_pending_order_len(s.drop_last(), leaf);
        lemma_subdivision_order_len(s.last(), (leaf - s.last().depth) as nat);
    }
}

proof fn lemma_pending_order_step(s: Seq<Triangle>, leaf: nat)
    requires
        s.len() > 0,
        s.last().depth <= leaf,
        leaf <= 61,
    ensures
        pending_order(s, leaf) == seq![s.last()] + pending_order(
            s.drop_last() + if s.last().depth < leaf {
                children(s.last())
            } else {
                Seq::empty()
            },
            leaf,
        ),
{
    let t = s.last();
    let rest = s.drop_last();
    if t.depth < leaf {
        let c = children(t);
        let below = (leaf - t.depth - 1) as nat;
        let s1 = rest.push(c[0]);
        let s2 = s1.push(c[1]);
        let s3 = s2.push(c[2]);
        assert(rest + c =~= s3);
        assert(s3.drop_last() =~= s2);
        assert(s2.drop_last() =~= s1);
        assert(s1.drop_last() =~= rest);
        assert(c[2].depth == t.depth + 1 && c[1].depth == t.depth + 1 && c[0].depth == t.depth
            + 1);
        assert(s3.last() == c[2] && s2.last() == c[1] && s1.last() == c[0]);
        assert(pending_order(s1, leaf) == subdivision_order(c[0], below) + pending_order(
            rest,
            leaf,
        ));
        assert(pending_order(s2, leaf) == subdivision_order(c[1], below) + pending_order(
            s1,
            leaf,
        ));
        assert(pending_order(s3, leaf) == subdivision_order(c[2], below) + pending_order(
            s2,
            leaf,
        ));
        assert(subdivision_order(t, (leaf - t.depth) as nat) == seq![t] + subdivision_order(
            c[2],
            below,
        ) + subdivision_order(c[1], below) + subdivision_order(c[0], below));
        assert(pending_order(s, leaf) == subdivision_order(t, (leaf - t.depth) as nat)
            + pending_order(rest, leaf));
        assert(pending_order(s, leaf) =~= seq![t] + pending_order(s3, leaf));
    } else {
        assert(rest + Seq::<Triangle>::empty() =~= rest);
        assert(pending_order(s, leaf) =~= seq![t] + pending_order(rest, leaf));
    }
}

proof fn lemma_outstanding_push(s: Seq<Triangle>, t: Triangle, leaf: nat)
    ensures
        outstanding(s.push(t), leaf) == outstanding(s, leaf) + ternary_tree_size(
            (leaf - t.depth) as nat,
        ),
{
    assert(s.push(t).drop_last() =~= s);
}

/// Counting law of the subdivision: under a root of height `num / den` the
/// triangles drawn form a full ternary tree whose leaves lie at the leaf
/// depth `L`, so there are `(3^(L + 1) - 1) / 2` of them; the leaves have
/// height below ten and, unless the root itself is the only triangle, at
/// least five.
pub proof fn lemma_subdivision_count(num: int, den: int)
    requires
        0 <= num <= u64::MAX,
        den >= 1,
    ensures
        2 * subdivision_order(root_triangle(), leaf_depth(num, den)).len() + 1 == pow(
            3,
            leaf_depth(num, den) + 1,
        ),
        num < MIN_HEIGHT * den * pow2(leaf_depth(num, den)),
        leaf_depth(num, den) > 0 ==> (MIN_HEIGHT / 2) * den * pow2(leaf_depth(num, den)) <= num,
{
    let leaf = leaf_depth(num, den);
    lemma_subdivision_order_len(root_triangle(), leaf);
    lemma_ternary_tree_size(leaf);
    lemma_leaf_height(num, den);
}

/// A worklist of triangles still to be drawn, starting from the root.
pub struct SierpinskiSubdivider {
    height_num: u64,
    height_den: u64,
    triangles: Vec<Triangle>,
}

impl SierpinskiSubdivider {
    /// The root height is `height_num() / height_den()`.
    pub closed spec fn height_num(&self) -> int {
        self.height_num as int
    }

    pub closed spec fn height_den(&self) -> int {
        self.height_den as int
    }

    /// The worklist; its last element is drawn next.
    pub closed spec fn pending(&self) -> Seq<Triangle> {
        self.triangles@
    }

    pub closed spec fn wf(&self) -> bool {
        let leaf = leaf_depth(self.height_num as int, self.height_den as int);
        &&& self.height_den >= 1
        &&& forall|i: int|
            0 <= i < self.triangles@.len() ==> {
                let t = #[trigger] self.triangles@[i];
                &&& t.depth <= leaf
                &&& -pow2((t.depth + 1) as nat) < t.x < pow2((t.depth + 1) as nat)
                &&& -pow2((t.depth + 1) as nat) < t.y < pow2((t.depth + 1) as nat)
                &&& i <= 2 * t.depth
            }
    }

    /// A worklist holding the root triangle, pointing down, of height
    /// `height_num / height_den`.
    pub fn new(height_num: u64, height_den: u64) -> (r: Self)
        requires
            height_den >= 1,
        ensures
            r.wf(),
            r.height_num() == height_num,
            r.height_den() == height_den,
            r.pending() == seq![Triangle { x: 0, y: 0, depth: 0, direction: TriangleDirection::Down }],
            r.pending().len() <= 2 * leaf_depth(height_num as int, height_den as int) + 1,
    {
        let mut triangles: Vec<Triangle> = Vec::new();
        triangles.push(Triangle { x: 0, y: 0, depth: 0, direction: TriangleDirection::Down });
        proof {
            lemma_pow2_pos(1);
        }
        Self { height_num, height_den, triangles }
    }

    /// Whether a triangle at `depth` is split.
    fn is_split(&self, depth: u32) -> (r: bool)
        requires
            self.height_den >= 1,
            depth <= 61,
        ensures
            r == subdivides(self.height_num as int, self.height_den as int, depth as nat),
    {
        let scaled = self.height_num >> (depth as u64);
        proof {
            lemma_u64_shr_is_div(self.height_num, depth as u64);
            lemma_pow2_pos(depth as nat);
            let p = pow2(depth as nat) as int;
            let q = scaled as int;
            let num = self.height_num as int;
            let den = self.height_den as int;
            lemma_fundamental_div_mod(num, p);
            assert((q >= MIN_HEIGHT * den) == (num >= MIN_HEIGHT * den * p)) by (nonlinear_arith)
                requires
                    num == p * q + num % p,
                    0 <= num % p < p,
                    p > 0,
            ;
        }
        scaled / MIN_HEIGHT >= self.height_den
    }

    /// Takes the next triangle off the worklist and, if its height is at
    /// least ten, puts its three halves on in its place.
    pub fn next_triangle(&mut self) -> (r: Option<Triangle>)
        requires
            old(self).wf(),
        ensures
            final(self).wf(),
            final(self).height_num() == old(self).height_num(),
            final(self).height_den() == old(self).height_den(),
            final(self).pending().len() <= 2 * leaf_depth(
                final(self).height_num(),
                final(self).height_den(),
            ) + 1,
            old(self).pending().len() == 0 ==> r is None && final(self).pending() == old(
                self,
            ).pending(),
            old(self).pending().len() > 0 ==> {
                let t = old(self).pending().last();
                &&& r == Some(t)
                &&& final(self).pending() == old(self).pending().drop_last() + if subdivides(
                    old(self).height_num(),
                    old(self).height_den(),
                    t.depth as nat,
                ) {
                    children(t)
                } else {
                    Seq::empty()
                }
            },
            outstanding(
                final(self).pending(),
                leaf_depth(final(self).height_num(), final(self).height_den()),
            ) + (if r is Some {
                1int
            } else {
                0int
            }) == outstanding(
                old(self).pending(),
                leaf_depth(old(self).height_num(), old(self).height_den()),
            ),
    {
        let ghost num = self.height_num as int;
        let ghost den = self.height_den as int;
        let ghost leaf = leaf_depth(num, den);
        let ghost s = self.triangles@;
        proof {
            lemma_leaf_depth(num, den);
        }
        match self.triangles.pop() {
            None => None,
            Some(triangle) => {
                proof {
                    assert(s.last() == triangle);
                    assert(self.triangles@ =~= s.drop_last());
                    assert(triangle == s[s.len() - 1]);
                }
                let split = self.is_split(triangle.depth);
                if split {
                    let ghost base = self.triangles@;
                    proof {
                        if triangle.depth >= leaf {
                            lemma_subdivides_monotone(num, den, leaf, triangle.depth as nat);
                        }
                        assert(triangle.depth < leaf);
                        lemma_pow2_unfold((triangle.depth + 1) as nat);
                        lemma_pow2_unfold((triangle.depth + 2) as nat);
                        assert(pow2((triangle.depth + 1) as nat) <= pow2(61)) by {
                            lemma2_to64();
                            if triangle.depth + 1 > 61 {
                                lemma_subdivides_monotone(num, den, 61, triangle.depth as nat);
                                lemma_no_split_at_61(num, den);
                            } else if triangle.depth + 1 < 61 {
                                vstd::arithmetic::power2::lemma_pow2_strictly_increases(
                                    (triangle.depth + 1) as nat,
                                    61,
                                );
                            }
                        }
                        lemma2_to64();
                        vstd::arithmetic::power2::lemma2_to64_rest();
                    }
                    let factor: i64 = match triangle.direction {
                        TriangleDirection::Up => 1,
                        TriangleDirection::Down => -1,
                    };
                    let depth = triangle.depth + 1;
                    let triangle1 = Triangle {
                        x: 2 * triangle.x - factor,
                        y: 2 * triangle.y - factor,
                        depth,
                        direction: triangle.direction,
                    };
                    let triangle2 = Triangle {
                        x: 2 * triangle.x + factor,
                        y: 2 * triangle.y - factor,
                        depth,
                        direction: triangle.direction,
                    };
                    let triangle3 = Triangle {
                        x: 2 * triangle.x,
                        y: 2 * triangle.y + factor,
                        depth,
                        direction: triangle.direction,
                    };
                    self.triangles.push(triangle1);
                    self.triangles.push(triangle2);
                    self.triangles.push(triangle3);
                    proof {
                        assert(self.triangles@ =~= base + children(triangle));
                        lemma_outstanding_push(base, triangle1, leaf);
                        lemma_outstanding_push(base.push(triangle1), triangle2, leaf);
                        lemma_outstanding_push(base.push(triangle1).push(triangle2), triangle3, leaf);
                        assert(self.triangles@ =~= base.push(triangle1).push(triangle2).push(
                            triangle3,
                        ));
                        assert((leaf - triangle.depth) as nat == ((leaf - depth) as nat) + 1);
                        assert forall|i: int| 0 <= i < self.triangles@.len() implies {
                            let t = #[trigger] self.triangles@[i];
                            &&& t.depth <= leaf
                            &&& -pow2((t.depth + 1) as nat) < t.x < pow2((t.depth + 1) as nat)
                            &&& -pow2((t.depth + 1) as nat) < t.y < pow2((t.depth + 1) as nat)
                            &&& i <= 2 * t.depth
                        } by {
                            if i < base.len() {
                                assert(self.triangles@[i] == s[i]);
                            }
                        }
                    }
                } else {
                    proof {
                        if triangle.depth < leaf {
                            assert(subdivides(num, den, triangle.depth as nat));
                        }
                        assert(triangle.depth == leaf);
                        assert(self.triangles@ =~= s.drop_last() + Seq::<Triangle>::empty());
                        assert forall|i: int| 0 <= i < self.triangles@.len() implies {
                            let t = #[trigger] self.triangles@[i];
                            &&& t.depth <= leaf
                            &&& -pow2((t.depth + 1) as nat) < t.x < pow2((t.depth + 1) as nat)
                            &&& -pow2((t.depth + 1) as nat) < t.y < pow2((t.depth + 1) as nat)
                            &&& i <= 2 * t.depth
                        } by {
                            assert(self.triangles@[i] == s[i]);
                        }
                    }
                }
                Some(triangle)
            },
        }
    }
}

/// Every triangle of the subdivision of a root of height
/// `height_num / height_den`, in the order the worklist draws them.
pub fn sierpinski_triangles(height_num: u64, height_den: u64) -> (r: Vec<Triangle>)
    requires
        height_den >= 1,
    ensures
        r@ == subdivision_order(
            root_triangle(),
            leaf_depth(height_num as int, height_den as int),
        ),
        r.len() == ternary_tree_size(leaf_depth(height_num as int, height_den as int)),
{
    let ghost leaf = leaf_depth(height_num as int, height_den as int);
    let mut worklist = SierpinskiSubdivider::new(height_num, height_den);
    let mut drawn: Vec<Triangle> = Vec::new();
    proof {
        let s = worklist.pending();
        assert(s.drop_last() =~= Seq::<Triangle>::empty());
        assert(s.last() == root_triangle());
        assert(pending_order(s.drop_last(), leaf) =~= Seq::<Triangle>::empty());
        assert(pending_order(s, leaf) =~= subdivision_order(root_triangle(), leaf));
        lemma_subdivision_order_len(root_triangle(), leaf);
    }
    loop
        invariant
            leaf == leaf_depth(height_num as int, height_den as int),
            height_den >= 1,
            worklist.wf(),
            worklist.height_num() == height_num,
            worklist.height_den() == height_den,
            drawn@ + pending_order(worklist.pending(), leaf) == subdivision_order(
                root_triangle(),
                leaf,
            ),
        ensures
            drawn@ == subdivision_order(root_triangle(), leaf),
        decreases outstanding(worklist.pending(), leaf),
    {
        let ghost before = worklist.pending();
        proof {
            lemma_leaf_depth(height_num as int, height_den as int);
            if before.len() > 0 {
                assert(worklist.pending()[before.len() - 1].depth <= leaf);
                lemma_pending_order_step(before, leaf);
                if before.last().depth < leaf {
                    assert(subdivides(height_num as int, height_den as int, before.last().depth as nat));
                }
            }
        }
        match worklist.next_triangle() {
            None => {
                proof {
                    assert(pending_order(before, leaf) =~= Seq::<Triangle>::empty());
                    assert(drawn@ + pending_order(before, leaf) =~= drawn@);
                }
                break ;
            },
            Some(triangle) => {
                let ghost old_drawn = drawn@;
                drawn.push(triangle);
                proof {
                    assert(drawn@ + pending_order(worklist.pending(), leaf) =~= old_drawn + (seq![
                        triangle,
                    ] + pending_order(worklist.pending(), leaf)));
                }
            },
        }
    }
    proof {
        lemma_subdivision_order_len(root_triangle(), leaf);
    }
    drawn
}

/// The number of zoom steps between the plain frame and the fully zoomed one.
pub const ZOOM_STEPS: u32 = 20;

/// The root triangle of a zoomed frame, as numerators over a common
/// denominator.
#[derive(Clone, Copy, Debug, PartialEq, Eq, Structural)]
pub struct ZoomedRoot {
    pub centre_x: u64,
    pub centre_y: u64,
    pub height: u64,
    pub denominator: u64,
}

/// The root of a `size` by `size` frame zoomed by `step / steps`: the centre
/// moves linearly from the middle `(size / 2, size / 2)` towards the corner
/// `(size, 0)` and the height from `size` towards `2 size`.
pub fn zoom_root(size: u32, step: u32, steps: u32) -> (r: ZoomedRoot)
    requires
        1 <= steps <= u16::MAX,
        step <= steps,
    ensures
        r.denominator == 2 * steps,
        r.centre_x == size * (steps + step),
        r.centre_y == size * (steps - step),
        r.height == 2 * size * (steps + step),
{
    let size = size as u64;
    let step = step as u64;
    let steps = steps as u64;
    assert(size * (steps + step) <= u32::MAX * (2 * u16::MAX)) by (nonlinear_arith)
        requires
            size <= u32::MAX,
            steps + step <= 2 * u16::MAX,
    ;
    assert(2 * (size * (steps + step)) == 2 * size * (steps + step)) by (nonlinear_arith);
    assert(size * (steps - step) <= size * (steps + step)) by (nonlinear_arith)
        requires
            step <= steps,
    ;
    ZoomedRoot {
        centre_x: size * (steps + step),
        centre_y: size * (steps - step),
        height: 2 * (size * (steps + step)),
        denominator: 2 * steps,
    }
}

} // verus!
