//! Ordering ids of map zones. A zone is placed by the order it has on each
//! layer of the zone hierarchy; its id packs those orders into one `u128`,
//! three decimal digits per layer, the outermost layer first.

use vstd::prelude::*;
use vstd::arithmetic::div_mod::{lemma_fundamental_div_mod, lemma_fundamental_div_mod_converse};

verus! {

/// Number of layers an ordering id has room for.
pub const MAX_LAYERS: usize = 11;

/// Largest order a zone may have on one layer.
pub const MAX_LAYER_ORDER: usize = 1000;

/// `1000` raised to `e`.
pub open spec fn thousand_pow(e: nat) -> nat
    decreases e,
{
    if e == 0 {
        1
    } else {
        1000 * thousand_pow((e - 1) as nat)
    }
}

/// Value of a base-1000 digit sequence, most significant digit first.
pub open spec fn base_thousand(d: Seq<int>) -> int
    decreases d.len(),
{
    if d.len() == 0 {
        0
    } else {
        base_thousand(d.drop_last()) * 1000 + d.last()
    }
}

/// The layer orders as integers.
pub open spec fn layers_as_int(layers: Seq<usize>) -> Seq<int> {
    layers.map_values(|x: usize| x as int)
}

/// `n` zero digits.
pub open spec fn zero_digits(n: nat) -> Seq<int> {
    Seq::new(n, |i: int| 0int)
}

/// The twelve base-1000 positions of an id: layer `l` is digit `l`, and the
/// digits past the last layer are zero.
pub open spec fn padded_layers(layers: Seq<usize>) -> Seq<int> {
    layers_as_int(layers) + zero_digits((12 - layers.len()) as nat)
}

/// The id value of a list of layer orders.
pub open spec fn layer_order_value(layers: Seq<usize>) -> int {
    base_thousand(padded_layers(layers))
}

/// Layer orders that `from_zone_orders` accepts.
pub open spec fn valid_layer_orders(layers: Seq<usize>) -> bool {
    &&& layers.len() <= MAX_LAYERS
    &&& forall|i: int| 0 <= i < layers.len() ==> layers[i] <= MAX_LAYER_ORDER
}

pub proof fn lemma_thousand_pow_adds(a: nat, b: nat)
    ensures
        thousand_pow(a + b) == thousand_pow(a) * thousand_pow(b),
    decreases b,
{
    if b == 0 {
        assert(a + b == a);
        assert(thousand_pow(b) == 1);
    } else {
        let b1 = (b - 1) as nat;
        lemma_thousand_pow_adds(a, b1);
        let pa = thousand_pow(a);
        let pb1 = thousand_pow(b1);
        assert(a + b1 == (a + b - 1) as nat);
        assert(thousand_pow(a + b) == 1000 * thousand_pow(a + b1));
        assert(thousand_pow(b) == 1000 * pb1);
        assert(pa * (1000 * pb1) == 1000 * (pa * pb1)) by (nonlinear_arith);
    }
}

pub proof fn lemma_thousand_pow_positive(e: nat)
    ensures
        thousand_pow(e) >= 1,
    decreases e,
{
    if e > 0 {
        lemma_thousand_pow_positive((e - 1) as nat);
    }
}

/// Splitting a digit sequence splits its value.
pub proof fn lemma_base_thousand_append(x: Seq<int>, y: Seq<int>)
    ensures
        base_thousand(x + y) == base_thousand(x) * thousand_pow(y.len()) + base_thousand(y),
    decreases y.len(),
{
    if y.len() == 0 {
        assert(x + y =~= x);
        assert(base_thousand(y) == 0);
        assert(thousand_pow(y.len()) == 1);
        assert(base_thousand(x) * 1 == base_thousand(x));
    } else {
        let y1 = y.drop_last();
        assert((x + y).drop_last() =~= x + y1);
        assert((x + y).last() == y.last());
        lemma_base_thousand_append(x, y1);
        let bx = base_thousand(x);
        let by1 = base_thousand(y1);
        let p1 = thousand_pow(y1.len());
        let l = y.last();
        assert(y.len() == y1.len() + 1);
        assert(thousand_pow(y.len()) == 1000 * p1);
        assert(base_thousand(x + y) == base_thousand(x + y1) * 1000 + l);
        assert(base_thousand(y) == by1 * 1000 + l);
        assert((bx * p1 + by1) * 1000 + l == bx * (1000 * p1) + (by1 * 1000 + l))
            by (nonlinear_arith);
    }
}

pub proof fn lemma_base_thousand_zeros(n: nat)
    ensures
        base_thousand(zero_digits(n)) == 0,
    decreases n,
{
    if n > 0 {
        assert(zero_digits(n).drop_last() =~= zero_digits((n - 1) as nat));
        lemma_base_thousand_zeros((n - 1) as nat);
    }
}

pub proof fn lemma_thousand_pow_monotone(a: nat, b: nat)
    requires
        a <= b,
    ensures
        thousand_pow(a) <= thousand_pow(b),
    decreases b - a,
{
    if a < b {
        lemma_thousand_pow_monotone(a, (b - 1) as nat);
    }
}

proof fn lemma_thousand_pow_twelve()
    ensures
        thousand_pow(12) == 1_000_000_000_000_000_000_000_000_000_000_000_000int,
{
    reveal_with_fuel(thousand_pow, 13);
}

/// Digits in `0..1000` give a value below `1000^len`.
pub proof fn lemma_base_thousand_bound(d: Seq<int>)
    requires
        forall|i: int| 0 <= i < d.len() ==> 0 <= #[trigger] d[i] < 1000,
    ensures
        0 <= base_thousand(d) < thousand_pow(d.len()),
    decreases d.len(),
{
    if d.len() > 0 {
        let d1 = d.drop_last();
        assert forall|i: int| 0 <= i < d1.len() implies 0 <= #[trigger] d1[i] < 1000 by {
            assert(d1[i] == d[i]);
        }
        lemma_base_thousand_bound(d1);
        let b1 = base_thousand(d1);
        let p1 = thousand_pow(d1.len());
        assert(thousand_pow(d.len()) == 1000 * p1);
        assert(0 <= d.last() < 1000);
        assert(b1 * 1000 + d.last() < 1000 * p1) by (nonlinear_arith)
            requires
                0 <= b1 < p1,
                d.last() < 1000,
        ;
    }
}

/// Digits in `0..=1000` keep the value non-negative and bounded.
pub proof fn lemma_base_thousand_loose_bound(d: Seq<int>)
    requires
        forall|i: int| 0 <= i < d.len() ==> 0 <= #[trigger] d[i] <= 1000,
    ensures
        0 <= base_thousand(d),
        base_thousand(d) * 999 <= 1000 * (thousand_pow(d.len()) - 1),
    decreases d.len(),
{
    if d.len() > 0 {
        let d1 = d.drop_last();
        assert forall|i: int| 0 <= i < d1.len() implies 0 <= #[trigger] d1[i] <= 1000 by {
            assert(d1[i] == d[i]);
        }
        lemma_base_thousand_loose_bound(d1);
        assert(thousand_pow(d.len()) == 1000 * thousand_pow(d1.len()));
        assert(0 <= d.last() <= 1000);
    }
}

/// Dividing by `1000^(len - j)` keeps the first `j` digits.
pub proof fn lemma_base_thousand_div(d: Seq<int>, j: nat)
    requires
        j <= d.len(),
        forall|i: int| 0 <= i < d.len() ==> 0 <= #[trigger] d[i] < 1000,
    ensures
        base_thousand(d) / (thousand_pow((d.len() - j) as nat) as int) == base_thousand(d.take(j as int)),
        base_thousand(d) % (thousand_pow((d.len() - j) as nat) as int) == base_thousand(d.skip(j as int)),
{
    let x = d.take(j as int);
    let y = d.skip(j as int);
    assert(x + y =~= d);
    lemma_base_thousand_append(x, y);
    assert forall|i: int| 0 <= i < y.len() implies 0 <= #[trigger] y[i] < 1000 by {
        assert(y[i] == d[i + j]);
    }
    lemma_base_thousand_bound(y);
    assert(y.len() == d.len() - j);
    let m = thousand_pow(y.len()) as int;
    lemma_fundamental_div_mod_converse(base_thousand(d), m, base_thousand(x), base_thousand(y));
}

/// Two digit sequences of one length with one value are the same.
pub proof fn lemma_base_thousand_injective(x: Seq<int>, y: Seq<int>)
    requires
        x.len() == y.len(),
        forall|i: int| 0 <= i < x.len() ==> 0 <= #[trigger] x[i] < 1000,
        forall|i: int| 0 <= i < y.len() ==> 0 <= #[trigger] y[i] < 1000,
        base_thousand(x) == base_thousand(y),
    ensures
        x == y,
    decreases x.len(),
{
    if x.len() > 0 {
        let x1 = x.drop_last();
        let y1 = y.drop_last();
        assert forall|i: int| 0 <= i < x1.len() implies 0 <= #[trigger] x1[i] < 1000 by {
            assert(x1[i] == x[i]);
        }
        assert forall|i: int| 0 <= i < y1.len() implies 0 <= #[trigger] y1[i] < 1000 by {
            assert(y1[i] == y[i]);
        }
        let v = base_thousand(x);
        lemma_fundamental_div_mod_converse(v, 1000, base_thousand(x1), x.last());
        lemma_fundamental_div_mod_converse(v, 1000, base_thousand(y1), y.last());
        lemma_base_thousand_injective(x1, y1);
        assert(x =~= x1.push(x.last()));
        assert(y =~= y1.push(y.last()));
    } else {
        assert(x =~= y);
    }
}

/// One step of packing: adding layer `d` below a prefix of value `b`.
proof fn lemma_layer_step(b: int, d: int, below: nat, above: nat)
    requires
        0 <= b,
        0 <= d <= 1000,
        b * 999 <= 1000 * (thousand_pow(above) - 1),
        above + 1 + below == 12,
    ensures
        (b * 1000 + d) * 999 <= 1000 * (thousand_pow(above + 1) - 1),
        thousand_pow(below) * d + b * thousand_pow(below + 1) == (b * 1000 + d) * thousand_pow(
            below,
        ),
        0 <= thousand_pow(below) * d <= (b * 1000 + d) * thousand_pow(below),
        (b * 1000 + d) * thousand_pow(below) <= u128::MAX,
{
    let x = thousand_pow(below) as int;
    let y = thousand_pow(above + 1) as int;
    let nb = b * 1000 + d;
    assert(y == 1000 * thousand_pow(above));
    assert(thousand_pow(below + 1) == 1000 * x);
    lemma_thousand_pow_adds(below, above + 1);
    assert(below + (above + 1) == 12);
    lemma_thousand_pow_twelve();
    lemma_thousand_pow_positive(below);
    assert(x * y == 1_000_000_000_000_000_000_000_000_000_000_000_000int);
    assert(nb * 999 <= 1000 * (y - 1));
    assert(x * d + b * (1000 * x) == nb * x) by (nonlinear_arith)
        requires
            nb == b * 1000 + d,
    ;
    assert(0 <= x * d <= nb * x) by (nonlinear_arith)
        requires
            0 <= d <= nb,
            x >= 1,
    ;
    assert(nb * x <= u128::MAX) by (nonlinear_arith)
        requires
            nb * 999 <= 1000 * (y - 1),
            x >= 1,
            x * y == 1_000_000_000_000_000_000_000_000_000_000_000_000int,
            nb >= 0,
    ;
}

/// The ordering id of a zone.
#[derive(Clone, Copy, PartialEq, Eq, Structural, PartialOrd, Ord, Debug, Hash)]
pub struct ZoneOrderingId {
    pub order: u128,
}

/// `1000^exp`.
fn thousand_power(exp: u32) -> (r: u128)
    requires
        exp <= 12,
    ensures
        r == thousand_pow(exp as nat),
{
    let mut r: u128 = 1;
    let mut i: u32 = 0;
    while i < exp
        invariant
            i <= exp <= 12,
            r == thousand_pow(i as nat),
        decreases exp - i,
    {
        proof {
            lemma_thousand_pow_monotone((i + 1) as nat, 12);
            lemma_thousand_pow_twelve();
        }
        r = r * 1000;
        i = i + 1;
    }
    r
}

/// The first layer `k` in `start..12` on which `a` and `b` agree once the
/// last `k` digits are dropped.
pub open spec fn shared_layer_from(a: int, b: int, start: nat) -> Option<nat>
    decreases 12 - start,
{
    if start >= 12 {
        None
    } else if a / (thousand_pow(start) as int) == b / (thousand_pow(start) as int) {
        Some(start)
    } else {
        shared_layer_from(a, b, start + 1)
    }
}

/// The order of the nearest zone that contains both `a` and `b`.
pub open spec fn shared_zone_order(a: int, b: int) -> Option<int> {
    if a == b {
        Some(a)
    } else {
        match shared_layer_from(a, b, 1) {
            Some(k) => Some(a / (thousand_pow(k) as int) * (thousand_pow(k) as int)),
            None => None,
        }
    }
}

impl ZoneOrderingId {
    /// Packs the orders a zone has on each layer, outermost first, into an id.
    /// Gives `None` for more than eleven layers or an order above 1000.
    pub fn from_zone_orders(order_in_layers: &[usize]) -> (r: Option<ZoneOrderingId>)
        ensures
            r is Some <==> valid_layer_orders(order_in_layers@),
            r matches Some(id) ==> id.order == layer_order_value(order_in_layers@),
    {
        let ghost layers = order_in_layers@;
        let mut order: u128 = 0;
        if order_in_layers.len() > MAX_LAYERS {
            return None;
        }
        let mut layer: usize = 0;
        while layer < order_in_layers.len()
            invariant
                layers == order_in_layers@,
                layer <= layers.len() <= 11,
                forall|i: int| 0 <= i < layer ==> layers[i] <= 1000,
                0 <= base_thousand(layers_as_int(layers.take(layer as int))),
                base_thousand(layers_as_int(layers.take(layer as int))) * 999 <= 1000 * (
                thousand_pow(layer as nat) - 1),
                order == base_thousand(layers_as_int(layers.take(layer as int))) * thousand_pow(
                    (12 - layer) as nat,
                ),
            decreases layers.len() - layer,
        {
            let layer_order = order_in_layers[layer];
            if layer_order > MAX_LAYER_ORDER {
                proof {
                    assert(!valid_layer_orders(layers));
                }
                return None;
            }
            let power = (11 - layer) as u32;
            let multiplier = thousand_power(power);
            let ghost prefix = layers_as_int(layers.take(layer as int));
            let ghost next = layers_as_int(layers.take(layer + 1));
            proof {
                assert(next.drop_last() =~= prefix);
                assert(next.last() == layer_order as int);
                lemma_layer_step(base_thousand(prefix), layer_order as int, power as nat, layer as nat);
                assert((12 - layer) as nat == power + 1);
                assert(base_thousand(next) == base_thousand(prefix) * 1000 + layer_order);
            }
            order = multiplier * (layer_order as u128) + order;
            layer = layer + 1;
        }
        proof {
            assert(layers.take(layer as int) =~= layers);
            lemma_base_thousand_append(layers_as_int(layers), zero_digits((12 - layers.len()) as nat));
            lemma_base_thousand_zeros((12 - layers.len()) as nat);
        }
        Some(ZoneOrderingId { order })
    }

    /// The nearest zone containing both `self` and `b`: the id of the longest
    /// run of outer layers the two share, or `None` when not even the
    /// outermost layer is shared.
    pub fn nearest_shared_zone(&self, b: &ZoneOrderingId) -> (r: Option<ZoneOrderingId>)
        ensures
            r is Some <==> shared_zone_order(self.order as int, b.order as int) is Some,
            r matches Some(id) ==> id.order == shared_zone_order(
                self.order as int,
                b.order as int,
            ).unwrap(),
    {
        if *self == *b {
            return Some(*self);
        }
        let mut layer: u32 = 1;
        while layer < 12
            invariant
                1 <= layer <= 12,
                self.order != b.order,
                shared_layer_from(self.order as int, b.order as int, 1) == shared_layer_from(
                    self.order as int,
                    b.order as int,
                    layer as nat,
                ),
            decreases 12 - layer,
        {
            let divisor = thousand_power(layer);
            proof {
                lemma_thousand_pow_positive(layer as nat);
            }
            let a_adjusted = self.order / divisor;
            let b_adjusted = b.order / divisor;
            if a_adjusted == b_adjusted {
                proof {
                    lemma_thousand_pow_positive(layer as nat);
                    lemma_fundamental_div_mod(self.order as int, divisor as int);
                    assert(a_adjusted * divisor <= self.order) by (nonlinear_arith)
                        requires
                            self.order as int == divisor * a_adjusted + (self.order as int) % (
                            divisor as int),
                            (self.order as int) % (divisor as int) >= 0,
                    ;
                }
                return Some(ZoneOrderingId { order: a_adjusted * divisor });
            }
            layer = layer + 1;
        }
        None
    }
}

/// Layer orders that are proper base-1000 digits: a layer order of 1000
/// carries into the next outer layer, these do not.
pub open spec fn proper_layer_orders(layers: Seq<usize>) -> bool {
    &&& layers.len() <= MAX_LAYERS
    &&& forall|i: int| 0 <= i < layers.len() ==> layers[i] < MAX_LAYER_ORDER
}

/// Length of the longest common prefix of two sequences.
pub open spec fn common_prefix_len(x: Seq<int>, y: Seq<int>) -> nat
    decreases x.len(),
{
    if x.len() == 0 || y.len() == 0 || x[0] != y[0] {
        0
    } else {
        1 + common_prefix_len(x.drop_first(), y.drop_first())
    }
}

proof fn lemma_common_prefix(x: Seq<int>, y: Seq<int>, j: nat)
    requires
        j <= x.len(),
        j <= y.len(),
    ensures
        common_prefix_len(x, y) <= x.len(),
        common_prefix_len(x, y) <= y.len(),
        (x.take(j as int) == y.take(j as int)) <==> j <= common_prefix_len(x, y),
    decreases x.len(),
{
    if x.len() == 0 || y.len() == 0 {
        assert(x.take(j as int) =~= y.take(j as int));
    } else if x[0] != y[0] {
        if j > 0 {
            assert(x.take(j as int)[0] != y.take(j as int)[0]);
        } else {
            assert(x.take(j as int) =~= y.take(j as int));
        }
    } else {
        if j == 0 {
            assert(x.take(j as int) =~= y.take(j as int));
            lemma_common_prefix(x.drop_first(), y.drop_first(), 0);
        } else {
            let x1 = x.drop_first();
            let y1 = y.drop_first();
            lemma_common_prefix(x1, y1, (j - 1) as nat);
            if x.take(j as int) == y.take(j as int) {
                assert forall|i: int| 0 <= i < j - 1 implies #[trigger] x1.take(j - 1)[i] == y1.take(j - 1)[i] by {
                    assert(x.take(j as int)[i + 1] == y.take(j as int)[i + 1]);
                }
                assert(x1.take(j - 1) =~= y1.take(j - 1));
            }
            if x1.take(j - 1) == y1.take(j - 1) {
                assert forall|i: int| 0 <= i < j implies #[trigger] x.take(j as int)[i] == y.take(j as int)[i] by {
                    if i > 0 {
                        assert(x1.take(j - 1)[i - 1] == y1.take(j - 1)[i - 1]);
                    }
                }
                assert(x.take(j as int) =~= y.take(j as int));
            }
        }
    }
}

proof fn lemma_padded_digits(layers: Seq<usize>)
    requires
        proper_layer_orders(layers),
    ensures
        padded_layers(layers).len() == 12,
        forall|i: int| 0 <= i < 12 ==> 0 <= #[trigger] padded_layers(layers)[i] < 1000,
{
    assert forall|i: int| 0 <= i < 12 implies 0 <= #[trigger] padded_layers(layers)[i] < 1000 by {
        if i < layers.len() {
            assert(padded_layers(layers)[i] == layers[i] as int);
        }
    }
}

/// Two lists of proper layer orders give one id exactly when they agree
/// once padded with zero layers.
pub proof fn lemma_zone_ids_are_injective(p: Seq<usize>, q: Seq<usize>)
    requires
        proper_layer_orders(p),
        proper_layer_orders(q),
    ensures
        (layer_order_value(p) == layer_order_value(q)) <==> (padded_layers(p) == padded_layers(q)),
{
    lemma_padded_digits(p);
    lemma_padded_digits(q);
    if layer_order_value(p) == layer_order_value(q) {
        lemma_base_thousand_injective(padded_layers(p), padded_layers(q));
    }
}

/// An outer zone is ordered before (or with) every zone inside it: the id
/// of the first `j` layers of a path is at most the id of the whole path.
pub proof fn lemma_outer_zone_orders_first(p: Seq<usize>, j: nat)
    requires
        valid_layer_orders(p),
        j <= p.len(),
    ensures
        layer_order_value(p.take(j as int)) <= layer_order_value(p),
{
    let d = padded_layers(p);
    let x = d.take(j as int);
    let y = d.skip(j as int);
    assert(x + y =~= d);
    lemma_base_thousand_append(x, y);
    assert forall|i: int| 0 <= i < y.len() implies 0 <= #[trigger] y[i] <= 1000 by {
        assert(y[i] == d[i + j]);
        if i + j < p.len() {
            assert(d[i + j] == p[i + j] as int);
        }
    }
    lemma_base_thousand_loose_bound(y);
    let z = zero_digits((12 - j) as nat);
    assert(padded_layers(p.take(j as int)) =~= x + z);
    lemma_base_thousand_append(x, z);
    lemma_base_thousand_zeros((12 - j) as nat);
    assert(y.len() == z.len());
}

/// The shared zone does not depend on which of the two zones asks.
pub proof fn lemma_shared_zone_symmetric(a: int, b: int)
    ensures
        shared_zone_order(a, b) == shared_zone_order(b, a),
{
    lemma_shared_layer_symmetric(a, b, 1);
    lemma_shared_layer_found(a, b, 1);
}

proof fn lemma_shared_layer_symmetric(a: int, b: int, start: nat)
    ensures
        shared_layer_from(a, b, start) == shared_layer_from(b, a, start),
    decreases 12 - start,
{
    if start < 12 {
        lemma_shared_layer_symmetric(a, b, start + 1);
    }
}

proof fn lemma_shared_layer_found(a: int, b: int, start: nat)
    ensures
        shared_layer_from(a, b, start) matches Some(k) ==> 1 <= start <= k < 12 || start == 0
            && k < 12,
        shared_layer_from(a, b, start) matches Some(k) ==> a / (thousand_pow(k) as int) == b / (
        thousand_pow(k) as int),
    decreases 12 - start,
{
    if start < 12 {
        lemma_shared_layer_found(a, b, start + 1);
    }
}

/// The shared zone lies at or before both zones in the ordering.
pub proof fn lemma_shared_zone_orders_first(a: int, b: int)
    requires
        0 <= a,
        0 <= b,
    ensures
        shared_zone_order(a, b) matches Some(s) ==> 0 <= s <= a && s <= b,
{
    if a != b {
        lemma_shared_layer_found(a, b, 1);
        if let Some(k) = shared_layer_from(a, b, 1) {
            let m = thousand_pow(k) as int;
            lemma_thousand_pow_positive(k);
            lemma_fundamental_div_mod(a, m);
            lemma_fundamental_div_mod(b, m);
            vstd::arithmetic::div_mod::lemma_mod_pos_bound(a, m);
            vstd::arithmetic::div_mod::lemma_mod_pos_bound(b, m);
            vstd::arithmetic::div_mod::lemma_div_pos_is_pos(a, m);
            assert(a / m * m <= a && 0 <= a / m * m) by (nonlinear_arith)
                requires
                    a == m * (a / m) + a % m,
                    a % m >= 0,
                    a / m >= 0,
                    m >= 1,
            ;
            assert(b / m * m <= b) by (nonlinear_arith)
                requires
                    b == m * (b / m) + b % m,
                    b % m >= 0,
            ;
        }
    }
}

proof fn lemma_shared_layer_by_prefix(p: Seq<usize>, q: Seq<usize>, start: nat)
    requires
        proper_layer_orders(p),
        proper_layer_orders(q),
        padded_layers(p) != padded_layers(q),
        1 <= start <= 12,
    ensures
        ({
            let c = common_prefix_len(padded_layers(p), padded_layers(q));
            let k = if start >= 12 - c { start } else { (12 - c) as nat };
            shared_layer_from(layer_order_value(p), layer_order_value(q), start) == if k <= 11 {
                Some(k)
            } else {
                None::<nat>
            }
        }),
    decreases 12 - start,
{
    let d = padded_layers(p);
    let e = padded_layers(q);
    lemma_padded_digits(p);
    lemma_padded_digits(q);
    lemma_common_prefix(d, e, 12);
    assert(d.take(12) =~= d);
    assert(e.take(12) =~= e);
    let c = common_prefix_len(d, e);
    assert(c < 12);
    if start < 12 {
        let j = (12 - start) as nat;
        lemma_base_thousand_div(d, j);
        lemma_base_thousand_div(e, j);
        lemma_common_prefix(d, e, j);
        if d.take(j as int) == e.take(j as int) {
        } else {
            let dj = d.take(j as int);
            let ej = e.take(j as int);
            if base_thousand(dj) == base_thousand(ej) {
                assert forall|i: int| 0 <= i < dj.len() implies 0 <= #[trigger] dj[i] < 1000 by {
                    assert(dj[i] == d[i]);
                }
                assert forall|i: int| 0 <= i < ej.len() implies 0 <= #[trigger] ej[i] < 1000 by {
                    assert(ej[i] == e[i]);
                }
                lemma_base_thousand_injective(dj, ej);
            }
            lemma_shared_layer_by_prefix(p, q, start + 1);
        }
    }
}

/// The nearest zone shared by two zones is the zone of their longest common
/// path of outer layers (compared once padded with zero layers); with no
/// common outermost layer there is none.
pub proof fn lemma_shared_zone_is_common_layer_path(p: Seq<usize>, q: Seq<usize>)
    requires
        proper_layer_orders(p),
        proper_layer_orders(q),
    ensures
        ({
            let c = common_prefix_len(padded_layers(p), padded_layers(q));
            let m = if c < p.len() { c as int } else { p.len() as int };
            shared_zone_order(layer_order_value(p), layer_order_value(q)) == if c == 0 {
                None::<int>
            } else {
                Some(layer_order_value(p.take(m)))
            }
        }),
{
    let d = padded_layers(p);
    let e = padded_layers(q);
    lemma_padded_digits(p);
    lemma_padded_digits(q);
    lemma_common_prefix(d, e, 12);
    assert(d.take(12) =~= d);
    assert(e.take(12) =~= e);
    let c = common_prefix_len(d, e);
    let m = if c < p.len() { c as int } else { p.len() as int };
    lemma_zone_ids_are_injective(p, q);
    if d == e {
        assert(p.take(m) =~= p);
    } else {
        lemma_shared_layer_by_prefix(p, q, 1);
        if c > 0 {
            let k = (12 - c) as nat;
            lemma_base_thousand_div(d, c);
            let z = zero_digits(k);
            lemma_base_thousand_append(d.take(c as int), z);
            lemma_base_thousand_zeros(k);
            assert(padded_layers(p.take(m)) =~= d.take(c as int) + z);
        }
    }
}

/// `x` comes before `y` in dictionary order: at the first position where
/// they differ, `x` has the smaller digit.
pub open spec fn digits_before(x: Seq<int>, y: Seq<int>) -> bool {
    let c = common_prefix_len(x, y) as int;
    c < x.len() && c < y.len() && x[c] < y[c]
}

/// Digit sequences of one length order by value as they order in a
/// dictionary.
proof fn lemma_base_thousand_order(x: Seq<int>, y: Seq<int>)
    requires
        x.len() == y.len(),
        forall|i: int| 0 <= i < x.len() ==> 0 <= #[trigger] x[i] < 1000,
        forall|i: int| 0 <= i < y.len() ==> 0 <= #[trigger] y[i] < 1000,
    ensures
        (base_thousand(x) < base_thousand(y)) <==> digits_before(x, y),
{
    let n = x.len();
    let c: int = common_prefix_len(x, y) as int;
    lemma_common_prefix(x, y, 0);
    lemma_common_prefix(x, y, c as nat);
    if c == n {
        assert(x.take(n as int) =~= x);
        assert(y.take(n as int) =~= y);
    } else {
        lemma_common_prefix(x, y, (c + 1) as nat);
        let xp = x.take(c);
        let xq = x.take(c + 1);
        let yq = y.take(c + 1);
        if x[c] == y[c] {
            assert forall|i: int| 0 <= i < c + 1 implies #[trigger] xq[i] == yq[i] by {
                if i < c {
                    assert(xp[i] == y.take(c)[i]);
                }
            }
            assert(xq =~= yq);
        }
        assert(xq.drop_last() =~= xp);
        assert(yq.drop_last() =~= y.take(c));
        let xr = x.skip(c + 1);
        let yr = y.skip(c + 1);
        assert(xq + xr =~= x);
        assert(yq + yr =~= y);
        lemma_base_thousand_append(xq, xr);
        lemma_base_thousand_append(yq, yr);
        assert forall|i: int| 0 <= i < xr.len() implies 0 <= #[trigger] xr[i] < 1000 by {
            assert(xr[i] == x[i + c + 1]);
        }
        assert forall|i: int| 0 <= i < yr.len() implies 0 <= #[trigger] yr[i] < 1000 by {
            assert(yr[i] == y[i + c + 1]);
        }
        lemma_base_thousand_bound(xr);
        lemma_base_thousand_bound(yr);
        let m = thousand_pow(xr.len()) as int;
        let pre = base_thousand(xp);
        let a = x[c];
        let b = y[c];
        let rx = base_thousand(xr);
        let ry = base_thousand(yr);
        assert(base_thousand(x) == (pre * 1000 + a) * m + rx);
        assert(base_thousand(y) == (pre * 1000 + b) * m + ry);
        if a < b {
            assert((pre * 1000 + a) * m + rx < (pre * 1000 + b) * m + ry) by (nonlinear_arith)
                requires
                    a < b,
                    0 <= rx < m,
                    0 <= ry,
            ;
        } else {
            assert((pre * 1000 + b) * m + ry < (pre * 1000 + a) * m + rx) by (nonlinear_arith)
                requires
                    b < a,
                    0 <= ry < m,
                    0 <= rx,
            ;
        }
    }
}

/// Ids order as the paths of layer orders do: one id is smaller than
/// another exactly when, padded with zero layers, its layer orders come
/// first in dictionary order.
pub proof fn lemma_zone_ids_order_as_layer_paths(p: Seq<usize>, q: Seq<usize>)
    requires
        proper_layer_orders(p),
        proper_layer_orders(q),
    ensures
        (layer_order_value(p) < layer_order_value(q)) <==> digits_before(padded_layers(p), padded_layers(q)),
{
    lemma_padded_digits(p);
    lemma_padded_digits(q);
    lemma_base_thousand_order(padded_layers(p), padded_layers(q));
}

} // verus!
