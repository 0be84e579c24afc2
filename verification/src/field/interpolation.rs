//! Interpolation through points with distinct first coordinates, by the
//! barycentric formula.
use crate::field::field_types::{
    all_units, all_wf, div_spec, inverse_spec, is_unit, sub_spec, Field, FieldOps,
};
use vstd::prelude::*;

verus! {

/// The first coordinates of the points.
pub open spec fn nodes_of<F: Field>(points: Seq<(F, F)>) -> Seq<F> {
    Seq::new(points.len(), |i: int| points[i].0)
}

/// Both coordinates of every point are well formed.
pub open spec fn points_wf<F: Field>(points: Seq<(F, F)>) -> bool {
    forall|i: int| 0 <= i < points.len() ==> (#[trigger] points[i]).0.wf() && points[i].1.wf()
}

/// The product of the differences `x_i - x_j` over the `j` below `n` other
/// than `i`.
pub open spec fn node_product<F: Field>(nodes: Seq<F>, i: int, n: nat) -> F
    decreases n,
{
    if n == 0 {
        F::one_spec()
    } else {
        let rest = node_product(nodes, i, (n - 1) as nat);
        if n - 1 == i {
            rest
        } else {
            rest.mul_spec(sub_spec(nodes[i], nodes[n - 1]))
        }
    }
}

/// The products of differences of all nodes, one per node.
pub open spec fn node_products<F: Field>(nodes: Seq<F>) -> Seq<F> {
    Seq::new(nodes.len(), |i: int| node_product(nodes, i, nodes.len()))
}

/// The barycentric weights of the nodes: the inverses of their products of
/// differences.
pub open spec fn barycentric_weights_spec<F: Field>(nodes: Seq<F>) -> Seq<F> {
    Seq::new(nodes.len(), |i: int| inverse_spec(node_product(nodes, i, nodes.len())))
}

/// The product of the differences `x - x_i` over the first `n` nodes.
pub open spec fn vanishing_product<F: Field>(nodes: Seq<F>, x: F, n: nat) -> F
    decreases n,
{
    if n == 0 {
        F::one_spec()
    } else {
        vanishing_product(nodes, x, (n - 1) as nat).mul_spec(sub_spec(x, nodes[n - 1]))
    }
}

/// The sum of `w_i / (x - x_i) * y_i` over the first `n` points.
pub open spec fn barycentric_sum<F: Field>(points: Seq<(F, F)>, x: F, weights: Seq<F>, n: nat) -> F
    decreases n,
{
    if n == 0 {
        F::zero_spec()
    } else {
        barycentric_sum(points, x, weights, (n - 1) as nat).add_spec(
            div_spec(weights[n - 1], sub_spec(x, points[n - 1].0)).mul_spec(points[n - 1].1),
        )
    }
}

/// The least index below `n` of a node that is `x`, or `n` where there is none.
pub open spec fn first_node_at<F: Field>(nodes: Seq<F>, x: F, n: nat) -> nat
    decreases n,
{
    if n == 0 {
        0
    } else {
        let before = first_node_at(nodes, x, (n - 1) as nat);
        if before < n - 1 {
            before
        } else if nodes[n - 1] == x {
            (n - 1) as nat
        } else {
            n
        }
    }
}

/// The value at `x` of the interpolant through the points, by the barycentric
/// formula with the given weights; at a node, the value given there.
pub open spec fn interpolate_spec<F: Field>(points: Seq<(F, F)>, x: F, weights: Seq<F>) -> F {
    let hit = first_node_at(nodes_of(points), x, points.len());
    if hit < points.len() {
        points[hit as int].1
    } else {
        vanishing_product(nodes_of(points), x, points.len()).mul_spec(
            barycentric_sum(points, x, weights, points.len()),
        )
    }
}

/// Every difference `x - x_i` has an inverse, or `x` is a node.
pub open spec fn evaluation_point_ok<F: Field>(nodes: Seq<F>, x: F) -> bool {
    first_node_at(nodes, x, nodes.len()) < nodes.len() || forall|i: int|
        0 <= i < nodes.len() ==> is_unit(sub_spec(x, #[trigger] nodes[i]))
}

/// Products of differences of well-formed nodes are well formed.
pub proof fn lemma_node_product_wf<F: Field>(nodes: Seq<F>, i: int, n: nat)
    requires
        all_wf(nodes),
        0 <= i < nodes.len(),
        n <= nodes.len(),
    ensures
        node_product(nodes, i, n).wf(),
    decreases n,
{
    F::lemma_constants();
    if n > 0 {
        lemma_node_product_wf(nodes, i, (n - 1) as nat);
        F::lemma_closed(nodes[n - 1], nodes[n - 1]);
        F::lemma_closed(nodes[i], nodes[n - 1].neg_spec());
        F::lemma_closed(node_product(nodes, i, (n - 1) as nat), sub_spec(nodes[i], nodes[n - 1]));
    }
}

/// The first node at `x`, where there is one among the first `n`, is `x`, and
/// no node before it is.
pub proof fn lemma_first_node_at<F: Field>(nodes: Seq<F>, x: F, n: nat)
    requires
        n <= nodes.len(),
    ensures
        first_node_at(nodes, x, n) <= n,
        first_node_at(nodes, x, n) < n ==> nodes[first_node_at(nodes, x, n) as int] == x,
        forall|j: int| 0 <= j < first_node_at(nodes, x, n) ==> #[trigger] nodes[j] != x,
    decreases n,
{
    if n > 0 {
        lemma_first_node_at(nodes, x, (n - 1) as nat);
    }
}

/// The barycentric weights of the points: for each, the inverse of the product
/// of the differences between its first coordinate and those of the others.
pub fn barycentric_weights<F: Field>(points: &[(F, F)]) -> (r: Vec<F>)
    requires
        points_wf(points@),
        all_units(node_products(nodes_of(points@))),
    ensures
        r@ == barycentric_weights_spec(nodes_of(points@)),
        all_wf(r@),
{
    let n = points.len();
    let ghost nodes = nodes_of(points@);
    let mut products: Vec<F> = Vec::with_capacity(n);
    let mut i: usize = 0;
    while i < n
        invariant
            i <= n,
            n == points@.len(),
            nodes == nodes_of(points@),
            points_wf(points@),
            products@.len() == i,
            forall|k: int| 0 <= k < i ==> #[trigger] products@[k] == node_product(nodes, k, n as nat),
            forall|k: int| 0 <= k < i ==> (#[trigger] products@[k]).wf(),
        decreases n - i,
    {
        let mut product = F::one();
        let mut j: usize = 0;
        while j < n
            invariant
                j <= n,
                i < n,
                n == points@.len(),
                nodes == nodes_of(points@),
                points_wf(points@),
                product.wf(),
                product == node_product(nodes, i as int, j as nat),
            decreases n - j,
        {
            if j != i {
                let difference = points[i].0.sub(points[j].0);
                product = product.mul(difference);
            }
            j = j + 1;
        }
        products.push(product);
        i = i + 1;
    }
    proof {
        assert(products@ =~= node_products(nodes));
    }
    let weights = F::batch_multiplicative_inverse(products.as_slice());
    proof {
        assert(weights@ =~= barycentric_weights_spec(nodes));
    }
    weights
}

/// Interpolate the polynomial defined by the points and evaluate it at `x`,
/// with the barycentric weights of the points at hand.
pub fn interpolate<F: Field>(points: &[(F, F)], x: F, barycentric_weights: &[F]) -> (r: F)
    requires
        points_wf(points@),
        x.wf(),
        all_wf(barycentric_weights@),
        barycentric_weights@.len() == points@.len(),
        evaluation_point_ok(nodes_of(points@), x),
    ensures
        r == interpolate_spec(points@, x, barycentric_weights@),
        r.wf(),
{
    let n = points.len();
    let ghost nodes = nodes_of(points@);
    // If x is in the list of points, the Lagrange formula would divide by zero.
    let mut k: usize = 0;
    while k < n
        invariant
            k <= n,
            n == points@.len(),
            nodes == nodes_of(points@),
            points_wf(points@),
            x.wf(),
            first_node_at(nodes, x, k as nat) == k,
        decreases n - k,
    {
        if x.equals(&points[k].0) {
            proof {
                assert(nodes[k as int] == points@[k as int].0);
                lemma_first_node_stays(nodes, x, k as nat, n as nat);
            }
            return points[k].1;
        }
        proof {
            assert(nodes[k as int] == points@[k as int].0);
        }
        k = k + 1;
    }
    let mut l_x = F::one();
    let mut i: usize = 0;
    while i < n
        invariant
            i <= n,
            n == points@.len(),
            nodes == nodes_of(points@),
            points_wf(points@),
            x.wf(),
            l_x.wf(),
            l_x == vanishing_product(nodes, x, i as nat),
        decreases n - i,
    {
        l_x = l_x.mul(x.sub(points[i].0));
        i = i + 1;
    }
    let mut sum = F::zero();
    let mut i: usize = 0;
    while i < n
        invariant
            i <= n,
            n == points@.len(),
            points_wf(points@),
            x.wf(),
            all_wf(barycentric_weights@),
            barycentric_weights@.len() == n,
            nodes == nodes_of(points@),
            first_node_at(nodes, x, n as nat) == n,
            evaluation_point_ok(nodes, x),
            sum.wf(),
            sum == barycentric_sum(points@, x, barycentric_weights@, i as nat),
        decreases n - i,
    {
        let x_i = points[i].0;
        let y_i = points[i].1;
        let w_i = barycentric_weights[i];
        assert(is_unit(sub_spec(x, nodes[i as int])));
        assert(nodes[i as int] == points@[i as int].0);
        let term = w_i.div(x.sub(x_i)).mul(y_i);
        sum = sum.add(term);
        i = i + 1;
    }
    l_x.mul(sum)
}

/// A node found at position `k`, with none before it, is the first node found
/// in any longer prefix.
pub proof fn lemma_first_node_stays<F: Field>(nodes: Seq<F>, x: F, k: nat, n: nat)
    requires
        k < n <= nodes.len(),
        first_node_at(nodes, x, k) == k,
        nodes[k as int] == x,
    ensures
        first_node_at(nodes, x, n) == k,
    decreases n,
{
    if n > k + 1 {
        lemma_first_node_stays(nodes, x, k, (n - 1) as nat);
    }
}

/// The interpolation through the points at `x` divides by units only.
pub open spec fn interpolation_well_posed<F: Field>(points: Seq<(F, F)>, x: F) -> bool {
    all_units(node_products(nodes_of(points))) && evaluation_point_ok(nodes_of(points), x)
}

/// The value at `x` of the interpolant through the points, or `None` where the
/// barycentric formula would divide by an element without inverse.
pub fn try_interpolate<F: Field>(points: &[(F, F)], x: F) -> (r: Option<F>)
    requires
        points_wf(points@),
        x.wf(),
    ensures
        match r {
            Some(v) => interpolation_well_posed(points@, x) && v == interpolate_spec(
                points@,
                x,
                barycentric_weights_spec(nodes_of(points@)),
            ) && v.wf(),
            None => !interpolation_well_posed(points@, x),
        },
{
    let n = points.len();
    let ghost nodes = nodes_of(points@);
    // every product of differences of nodes must have an inverse
    let mut i: usize = 0;
    while i < n
        invariant
            i <= n,
            n == points@.len(),
            nodes == nodes_of(points@),
            points_wf(points@),
            forall|k: int| 0 <= k < i ==> is_unit(#[trigger] node_products(nodes)[k]),
        decreases n - i,
    {
        let mut product = F::one();
        let mut j: usize = 0;
        while j < n
            invariant
                j <= n,
                i < n,
                n == points@.len(),
                nodes == nodes_of(points@),
                points_wf(points@),
                product.wf(),
                product == node_product(nodes, i as int, j as nat),
            decreases n - j,
        {
            if j != i {
                let difference = points[i].0.sub(points[j].0);
                product = product.mul(difference);
            }
            j = j + 1;
        }
        match product.try_inverse() {
            Some(inverse) => {
                proof {
                    assert(crate::field::field_types::is_inverse(product, inverse));
                    assert(node_products(nodes)[i as int] == product);
                }
            },
            None => {
                proof {
                    assert(node_products(nodes)[i as int] == product);
                    if is_unit(product) {
                        let w = inverse_spec(product);
                        assert(crate::field::field_types::is_inverse(product, w));
                        assert(product.mul_spec(w) != F::one_spec());
                    }
                }
                return None;
            },
        }
        i = i + 1;
    }
    proof {
        assert(all_units(node_products(nodes)));
    }
    // the evaluation point must be a node or at a distance with an inverse
    // from every node
    let mut k: usize = 0;
    let mut hit = false;
    while k < n && !hit
        invariant
            k <= n,
            n == points@.len(),
            nodes == nodes_of(points@),
            points_wf(points@),
            x.wf(),
            !hit ==> first_node_at(nodes, x, k as nat) == k,
            hit ==> first_node_at(nodes, x, n as nat) < n,
        decreases n - k + if hit { 0int } else { 1int },
    {
        proof {
            assert(nodes[k as int] == points@[k as int].0);
        }
        if x.equals(&points[k].0) {
            proof {
                lemma_first_node_stays(nodes, x, k as nat, n as nat);
            }
            hit = true;
        } else {
            k = k + 1;
        }
    }
    if !hit {
        let mut m: usize = 0;
        while m < n
            invariant
                m <= n,
                n == points@.len(),
                nodes == nodes_of(points@),
                points_wf(points@),
                x.wf(),
                first_node_at(nodes, x, n as nat) == n,
                forall|k: int| 0 <= k < m ==> is_unit(sub_spec(x, #[trigger] nodes[k])),
            decreases n - m,
        {
            let difference = x.sub(points[m].0);
            proof {
                assert(nodes[m as int] == points@[m as int].0);
            }
            match difference.try_inverse() {
                Some(inverse) => {
                    proof {
                        assert(crate::field::field_types::is_inverse(difference, inverse));
                    }
                },
                None => {
                    proof {
                        if is_unit(difference) {
                            let w = inverse_spec(difference);
                            assert(crate::field::field_types::is_inverse(difference, w));
                            assert(difference.mul_spec(w) != F::one_spec());
                        }
                        assert(!is_unit(sub_spec(x, nodes[m as int])));
                    }
                    return None;
                },
            }
            m = m + 1;
        }
    }
    let weights = barycentric_weights(points);
    Some(interpolate(points, x, weights.as_slice()))
}

} // verus!
