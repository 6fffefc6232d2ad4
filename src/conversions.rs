use vstd::prelude::*;

verus! {

/// The colour representations that the conversions connect.
#[derive(Debug, Clone, Copy, PartialEq, Eq, Structural)]
pub enum ColourSpace {
    Rgb,
    Hsl,
    XyzD65,
    XyzD50,
    Lab,
    Lch,
    Oklab,
    Oklch,
}

/// A single-step conversion between two adjacent representations.
#[derive(Debug, Clone, Copy, PartialEq, Eq, Structural)]
pub enum Conversion {
    RgbToHsl,
    HslToRgb,
    RgbToXyzD65,
    XyzD65ToRgb,
    XyzD65ToXyzD50,
    XyzD50ToXyzD65,
    XyzD50ToLab,
    LabToXyzD50,
    LabToLch,
    LchToLab,
    XyzD65ToOklab,
    OklabToXyzD65,
    OklabToOklch,
    OklchToOklab,
}

/// The representation a conversion reads.
#[verifier::opaque]
pub open spec fn source_of(c: Conversion) -> ColourSpace {
    match c {
        Conversion::RgbToHsl => ColourSpace::Rgb,
        Conversion::HslToRgb => ColourSpace::Hsl,
        Conversion::RgbToXyzD65 => ColourSpace::Rgb,
        Conversion::XyzD65ToRgb => ColourSpace::XyzD65,
        Conversion::XyzD65ToXyzD50 => ColourSpace::XyzD65,
        Conversion::XyzD50ToXyzD65 => ColourSpace::XyzD50,
        Conversion::XyzD50ToLab => ColourSpace::XyzD50,
        Conversion::LabToXyzD50 => ColourSpace::Lab,
        Conversion::LabToLch => ColourSpace::Lab,
        Conversion::LchToLab => ColourSpace::Lch,
        Conversion::XyzD65ToOklab => ColourSpace::XyzD65,
        Conversion::OklabToXyzD65 => ColourSpace::Oklab,
        Conversion::OklabToOklch => ColourSpace::Oklab,
        Conversion::OklchToOklab => ColourSpace::Oklch,
    }
}

/// The representation a conversion produces.
#[verifier::opaque]
pub open spec fn target_of(c: Conversion) -> ColourSpace {
    match c {
        Conversion::RgbToHsl => ColourSpace::Hsl,
        Conversion::HslToRgb => ColourSpace::Rgb,
        Conversion::RgbToXyzD65 => ColourSpace::XyzD65,
        Conversion::XyzD65ToRgb => ColourSpace::Rgb,
        Conversion::XyzD65ToXyzD50 => ColourSpace::XyzD50,
        Conversion::XyzD50ToXyzD65 => ColourSpace::XyzD65,
        Conversion::XyzD50ToLab => ColourSpace::Lab,
        Conversion::LabToXyzD50 => ColourSpace::XyzD50,
        Conversion::LabToLch => ColourSpace::Lch,
        Conversion::LchToLab => ColourSpace::Lab,
        Conversion::XyzD65ToOklab => ColourSpace::Oklab,
        Conversion::OklabToXyzD65 => ColourSpace::XyzD65,
        Conversion::OklabToOklch => ColourSpace::Oklch,
        Conversion::OklchToOklab => ColourSpace::Oklab,
    }
}

/// The conversion that undoes `c`.
#[verifier::opaque]
pub open spec fn inverse_of(c: Conversion) -> Conversion {
    match c {
        Conversion::RgbToHsl => Conversion::HslToRgb,
        Conversion::HslToRgb => Conversion::RgbToHsl,
        Conversion::RgbToXyzD65 => Conversion::XyzD65ToRgb,
        Conversion::XyzD65ToRgb => Conversion::RgbToXyzD65,
        Conversion::XyzD65ToXyzD50 => Conversion::XyzD50ToXyzD65,
        Conversion::XyzD50ToXyzD65 => Conversion::XyzD65ToXyzD50,
        Conversion::XyzD50ToLab => Conversion::LabToXyzD50,
        Conversion::LabToXyzD50 => Conversion::XyzD50ToLab,
        Conversion::LabToLch => Conversion::LchToLab,
        Conversion::LchToLab => Conversion::LabToLch,
        Conversion::XyzD65ToOklab => Conversion::OklabToXyzD65,
        Conversion::OklabToXyzD65 => Conversion::XyzD65ToOklab,
        Conversion::OklabToOklch => Conversion::OklchToOklab,
        Conversion::OklchToOklab => Conversion::OklabToOklch,
    }
}

/// `steps` applied left to right take a colour in `from` to one in `to`:
/// each step reads what the one before it produced.
pub open spec fn is_chain(steps: Seq<Conversion>, from: ColourSpace, to: ColourSpace) -> bool {
    if steps.len() == 0 {
        from == to
    } else {
        &&& source_of(steps[0]) == from
        &&& target_of(steps.last()) == to
        &&& forall|i: int|
            #![trigger steps[i], steps[i + 1]]
            0 <= i < steps.len() - 1 ==> target_of(steps[i]) == source_of(steps[i + 1])
    }
}

/// No step is directly followed by the step that undoes it.
pub open spec fn never_backtracks(steps: Seq<Conversion>) -> bool {
    forall|i: int|
        #![trigger steps[i], steps[i + 1]]
        0 <= i < steps.len() - 1 ==> steps[i + 1] != inverse_of(steps[i])
}

/// The conversions form a tree rooted at RGB; this is the neighbour one
/// step nearer to RGB (RGB itself for RGB).
#[verifier::opaque]
pub open spec fn parent_of(s: ColourSpace) -> ColourSpace {
    match s {
        ColourSpace::Rgb => ColourSpace::Rgb,
        ColourSpace::Hsl => ColourSpace::Rgb,
        ColourSpace::XyzD65 => ColourSpace::Rgb,
        ColourSpace::XyzD50 => ColourSpace::XyzD65,
        ColourSpace::Lab => ColourSpace::XyzD50,
        ColourSpace::Lch => ColourSpace::Lab,
        ColourSpace::Oklab => ColourSpace::XyzD65,
        ColourSpace::Oklch => ColourSpace::Oklab,
    }
}

/// How many conversions separate a representation from RGB.
#[verifier::opaque]
pub open spec fn depth_of(s: ColourSpace) -> nat {
    match s {
        ColourSpace::Rgb => 0,
        ColourSpace::Hsl => 1,
        ColourSpace::XyzD65 => 1,
        ColourSpace::XyzD50 => 2,
        ColourSpace::Lab => 3,
        ColourSpace::Lch => 4,
        ColourSpace::Oklab => 2,
        ColourSpace::Oklch => 3,
    }
}

/// The conversion moves one step nearer to RGB.
pub open spec fn is_upward(c: Conversion) -> bool {
    depth_of(target_of(c)) < depth_of(source_of(c))
}

/// Undoing a step swaps what it reads and what it produces.
pub proof fn lemma_inverse_swaps_ends(c: Conversion)
    ensures
        source_of(inverse_of(c)) == target_of(c),
        target_of(inverse_of(c)) == source_of(c),
        inverse_of(inverse_of(c)) == c,
        is_upward(inverse_of(c)) != is_upward(c),
{
    reveal(source_of);
    reveal(target_of);
    reveal(inverse_of);
    reveal(depth_of);
    match c {
        Conversion::RgbToHsl => {},
        Conversion::HslToRgb => {},
        Conversion::RgbToXyzD65 => {},
        Conversion::XyzD65ToRgb => {},
        Conversion::XyzD65ToXyzD50 => {},
        Conversion::XyzD50ToXyzD65 => {},
        Conversion::XyzD50ToLab => {},
        Conversion::LabToXyzD50 => {},
        Conversion::LabToLch => {},
        Conversion::LchToLab => {},
        Conversion::XyzD65ToOklab => {},
        Conversion::OklabToXyzD65 => {},
        Conversion::OklabToOklch => {},
        Conversion::OklchToOklab => {},
    }
}

proof fn lemma_only_rgb_at_depth_zero(s: ColourSpace)
    ensures
        depth_of(s) == 0 <==> s == ColourSpace::Rgb,
{
    reveal(depth_of);
}

fn parent(s: ColourSpace) -> (r: ColourSpace)
    ensures
        r == parent_of(s),
        s != ColourSpace::Rgb ==> depth_of(r) + 1 == depth_of(s),
{
    proof {
        reveal(depth_of);
    }
    proof {
        reveal(parent_of);
    }
    match s {
        ColourSpace::Rgb => ColourSpace::Rgb,
        ColourSpace::Hsl => ColourSpace::Rgb,
        ColourSpace::XyzD65 => ColourSpace::Rgb,
        ColourSpace::XyzD50 => ColourSpace::XyzD65,
        ColourSpace::Lab => ColourSpace::XyzD50,
        ColourSpace::Lch => ColourSpace::Lab,
        ColourSpace::Oklab => ColourSpace::XyzD65,
        ColourSpace::Oklch => ColourSpace::Oklab,
    }
}

fn depth(s: ColourSpace) -> (r: u8)
    ensures
        r == depth_of(s),
        r == 0 <==> s == ColourSpace::Rgb,
{
    proof {
        reveal(depth_of);
    }
    match s {
        ColourSpace::Rgb => 0,
        ColourSpace::Hsl => 1,
        ColourSpace::XyzD65 => 1,
        ColourSpace::XyzD50 => 2,
        ColourSpace::Lab => 3,
        ColourSpace::Lch => 4,
        ColourSpace::Oklab => 2,
        ColourSpace::Oklch => 3,
    }
}

/// The conversion from `s` to its parent.
fn step_up(s: ColourSpace) -> (r: Conversion)
    requires
        s != ColourSpace::Rgb,
    ensures
        source_of(r) == s,
        target_of(r) == parent_of(s),
        is_upward(r),
{
    proof {
        reveal(source_of);
    }
    proof {
        reveal(target_of);
    }
    proof {
        reveal(parent_of);
    }
    proof {
        reveal(depth_of);
    }
    match s {
        ColourSpace::Hsl => Conversion::HslToRgb,
        ColourSpace::XyzD65 => Conversion::XyzD65ToRgb,
        ColourSpace::XyzD50 => Conversion::XyzD50ToXyzD65,
        ColourSpace::Lab => Conversion::LabToXyzD50,
        ColourSpace::Lch => Conversion::LchToLab,
        ColourSpace::Oklab => Conversion::OklabToXyzD65,
        _ => Conversion::OklchToOklab,
    }
}

/// The conversion from the parent of `s` to `s`.
fn step_down(s: ColourSpace) -> (r: Conversion)
    requires
        s != ColourSpace::Rgb,
    ensures
        source_of(r) == parent_of(s),
        target_of(r) == s,
        !is_upward(r),
{
    proof {
        reveal(source_of);
    }
    proof {
        reveal(target_of);
    }
    proof {
        reveal(parent_of);
    }
    proof {
        reveal(depth_of);
    }
    match s {
        ColourSpace::Hsl => Conversion::RgbToHsl,
        ColourSpace::XyzD65 => Conversion::RgbToXyzD65,
        ColourSpace::XyzD50 => Conversion::XyzD65ToXyzD50,
        ColourSpace::Lab => Conversion::XyzD50ToLab,
        ColourSpace::Lch => Conversion::LabToLch,
        ColourSpace::Oklab => Conversion::XyzD65ToOklab,
        _ => Conversion::OklabToOklch,
    }
}

proof fn lemma_chain_push(steps: Seq<Conversion>, from: ColourSpace, mid: ColourSpace, c: Conversion)
    requires
        is_chain(steps, from, mid),
        source_of(c) == mid,
    ensures
        is_chain(steps.push(c), from, target_of(c)),
{
    let t = steps.push(c);
    assert forall|i: int| 0 <= i < t.len() - 1 implies #[trigger] target_of(t[i]) == source_of(t[i + 1]) by {
        if i < steps.len() - 1 {
            assert(t[i] == steps[i] && t[i + 1] == steps[i + 1]);
        }
    }
}

proof fn lemma_chain_prepend(c: Conversion, steps: Seq<Conversion>, mid: ColourSpace, to: ColourSpace)
    requires
        is_chain(steps, mid, to),
        target_of(c) == mid,
    ensures
        is_chain(seq![c] + steps, source_of(c), to),
{
    let one = seq![c];
    assert(one[0] == c && one.last() == c);
    lemma_chain_concat(one, steps, source_of(c), mid, to);
}

proof fn lemma_chain_concat(
    x: Seq<Conversion>,
    y: Seq<Conversion>,
    from: ColourSpace,
    mid: ColourSpace,
    to: ColourSpace,
)
    requires
        is_chain(x, from, mid),
        is_chain(y, mid, to),
    ensures
        is_chain(x + y, from, to),
{
    let t = x + y;
    if x.len() == 0 {
        assert(t =~= y);
    } else if y.len() == 0 {
        assert(t =~= x);
    } else {
        assert(t[0] == x[0]);
        assert(t.last() == y.last());
        assert forall|i: int| 0 <= i < t.len() - 1 implies #[trigger] target_of(t[i]) == source_of(
            t[i + 1],
        ) by {
            if i < x.len() - 1 {
                assert(t[i] == x[i]);
                assert(t[i + 1] == x[i + 1]);
            } else if i == x.len() - 1 {
                assert(t[i] == x[i]);
                assert(t[i + 1] == y[0]);
            } else {
                let k = i - x.len();
                assert(t[i] == y[k]);
                assert(t[i + 1] == y[k + 1]);
            }
        }
    }
}

/// The conversions that take a colour from `from` to `to`, in the order in
/// which they apply: the chain that never undoes its previous step, of
/// which there is only one (`lemma_direct_chain_unique`). It is empty when
/// `from` and `to` are the same.
pub fn route(from: ColourSpace, to: ColourSpace) -> (steps: Vec<Conversion>)
    ensures
        is_chain(steps@, from, to),
        never_backtracks(steps@),
{
    let mut up: Vec<Conversion> = Vec::new();
    let mut down: Vec<Conversion> = Vec::new();
    let mut a = from;
    let mut b = to;
    while depth(a) > depth(b)
        invariant
            is_chain(up@, from, a),
            is_chain(down@, b, to),
            down@.len() == 0,
            forall|i: int| 0 <= i < up@.len() ==> is_upward(#[trigger] up@[i]),
            up@.len() > 0 ==> depth_of(a) >= depth_of(b),
        decreases depth_of(a),
    {
        proof {
            lemma_only_rgb_at_depth_zero(a);
        }
        let c = step_up(a);
        proof {
            lemma_chain_push(up@, from, a, c);
        }
        up.push(c);
        a = parent(a);
    }
    while depth(b) > depth(a)
        invariant
            is_chain(up@, from, a),
            is_chain(down@, b, to),
            forall|i: int| 0 <= i < up@.len() ==> is_upward(#[trigger] up@[i]),
            forall|i: int| 0 <= i < down@.len() ==> !is_upward(#[trigger] down@[i]),
            up@.len() > 0 ==> depth_of(a) >= depth_of(b),
            up@.len() > 0 ==> down@.len() == 0,
            depth_of(a) <= depth_of(b),
        decreases depth_of(b),
    {
        proof {
            lemma_only_rgb_at_depth_zero(b);
        }
        let c = step_down(b);
        proof {
            lemma_chain_prepend(c, down@, b, to);
        }
        let ghost old_down = down@;
        down.insert(0, c);
        assert(down@ =~= seq![c] + old_down);
        b = parent(b);
    }
    while a != b
        invariant
            is_chain(up@, from, a),
            is_chain(down@, b, to),
            forall|i: int| 0 <= i < up@.len() ==> is_upward(#[trigger] up@[i]),
            forall|i: int| 0 <= i < down@.len() ==> !is_upward(#[trigger] down@[i]),
            depth_of(a) == depth_of(b),
            up@.len() > 0 && down@.len() > 0 ==> source_of(up@.last()) != target_of(down@[0]),
        decreases depth_of(a),
    {
        proof {
            lemma_only_rgb_at_depth_zero(a);
            lemma_only_rgb_at_depth_zero(b);
        }
        let cu = step_up(a);
        let cd = step_down(b);
        proof {
            lemma_chain_push(up@, from, a, cu);
            lemma_chain_prepend(cd, down@, b, to);
        }
        up.push(cu);
        let ghost old_down = down@;
        down.insert(0, cd);
        assert(down@ =~= seq![cd] + old_down);
        a = parent(a);
        b = parent(b);
    }
    let ghost u = up@;
    let ghost d = down@;
    proof {
        lemma_chain_concat(u, d, from, a, to);
    }
    up.append(&mut down);
    assert(up@ =~= u + d);
    assert forall|i: int| 0 <= i < up@.len() - 1 implies up@[i + 1] != #[trigger] inverse_of(
        up@[i],
    ) by {
        lemma_inverse_swaps_ends(up@[i]);
        if i < u.len() - 1 {
            assert(up@[i] == u[i] && up@[i + 1] == u[i + 1]);
        } else if i == u.len() - 1 {
            assert(up@[i] == u.last() && up@[i + 1] == d[0]);
        } else {
            assert(up@[i] == d[i - u.len()] && up@[i + 1] == d[i - u.len() + 1]);
        }
    }
    up
}

/// The representations built on the D50 reference white: XYZ-D50, LAB and
/// LCH. The others rest on D65.
pub open spec fn is_d50_based(s: ColourSpace) -> bool {
    s == ColourSpace::XyzD50 || s == ColourSpace::Lab || s == ColourSpace::Lch
}

/// One of the two reference-white adaptations.
pub open spec fn is_white_adaptation(c: Conversion) -> bool {
    c == Conversion::XyzD65ToXyzD50 || c == Conversion::XyzD50ToXyzD65
}

proof fn lemma_only_adaptation_changes_white(c: Conversion)
    ensures
        is_d50_based(source_of(c)) != is_d50_based(target_of(c)) ==> is_white_adaptation(c),
{
    reveal(source_of);
    reveal(target_of);
}

/// Every chain of conversions between a D65-based and a D50-based
/// representation adapts the reference white on the way: no conversion
/// sequence reaches LAB or LCH from RGB, HSL, XYZ-D65, OKLAB or OKLCH, or
/// back, without it.
pub proof fn lemma_white_adaptation_required(
    steps: Seq<Conversion>,
    from: ColourSpace,
    to: ColourSpace,
)
    requires
        is_chain(steps, from, to),
        is_d50_based(from) != is_d50_based(to),
    ensures
        exists|i: int| 0 <= i < steps.len() && is_white_adaptation(#[trigger] steps[i]),
    decreases steps.len(),
{
    let c = steps[0];
    lemma_only_adaptation_changes_white(c);
    if is_white_adaptation(c) {
        assert(is_white_adaptation(steps[0]));
    } else {
        let rest = steps.drop_first();
        assert(rest.len() > 0) by {
            if rest.len() == 0 {
                assert(steps.last() == c);
            }
        }
        let z: int = 0;
        assert(target_of(steps[z]) == source_of(steps[z + 1]));
        assert forall|i: int|
            #![trigger rest[i], rest[i + 1]]
            0 <= i < rest.len() - 1 implies target_of(rest[i]) == source_of(rest[i + 1]) by {
            assert(rest[i] == steps[i + 1] && rest[i + 1] == steps[i + 2]);
        }
        assert(rest.last() == steps.last());
        lemma_white_adaptation_required(rest, target_of(c), to);
        let i = choose|i: int| 0 <= i < rest.len() && is_white_adaptation(#[trigger] rest[i]);
        assert(steps[i + 1] == rest[i]);
    }
}

/// The representation `n` steps nearer to RGB than `s` (RGB once reached).
spec fn ancestor(s: ColourSpace, n: nat) -> ColourSpace
    decreases n,
{
    if n == 0 {
        s
    } else {
        parent_of(ancestor(s, (n - 1) as nat))
    }
}

/// Where a colour stands after the first `i` steps of a chain from `from`.
spec fn stop_after(steps: Seq<Conversion>, from: ColourSpace, i: int) -> ColourSpace {
    if i == 0 {
        from
    } else {
        target_of(steps[i - 1])
    }
}

spec fn up_from(s: ColourSpace) -> Conversion {
    match s {
        ColourSpace::Hsl => Conversion::HslToRgb,
        ColourSpace::XyzD65 => Conversion::XyzD65ToRgb,
        ColourSpace::XyzD50 => Conversion::XyzD50ToXyzD65,
        ColourSpace::Lab => Conversion::LabToXyzD50,
        ColourSpace::Lch => Conversion::LchToLab,
        ColourSpace::Oklab => Conversion::OklabToXyzD65,
        _ => Conversion::OklchToOklab,
    }
}

spec fn down_into(s: ColourSpace) -> Conversion {
    match s {
        ColourSpace::Hsl => Conversion::RgbToHsl,
        ColourSpace::XyzD65 => Conversion::RgbToXyzD65,
        ColourSpace::XyzD50 => Conversion::XyzD65ToXyzD50,
        ColourSpace::Lab => Conversion::XyzD50ToLab,
        ColourSpace::Lch => Conversion::LabToLch,
        ColourSpace::Oklab => Conversion::XyzD65ToOklab,
        _ => Conversion::OklabToOklch,
    }
}

/// Each conversion is the edge between a representation and its parent,
/// walked one way or the other.
proof fn lemma_edge(c: Conversion)
    ensures
        is_upward(c) ==> {
            &&& source_of(c) != ColourSpace::Rgb
            &&& target_of(c) == parent_of(source_of(c))
            &&& c == up_from(source_of(c))
            &&& inverse_of(c) == down_into(source_of(c))
        },
        !is_upward(c) ==> {
            &&& target_of(c) != ColourSpace::Rgb
            &&& source_of(c) == parent_of(target_of(c))
            &&& c == down_into(target_of(c))
            &&& inverse_of(c) == up_from(target_of(c))
        },
{
    reveal(source_of);
    reveal(target_of);
    reveal(inverse_of);
    reveal(parent_of);
    reveal(depth_of);
    match c {
        Conversion::RgbToHsl => {},
        Conversion::HslToRgb => {},
        Conversion::RgbToXyzD65 => {},
        Conversion::XyzD65ToRgb => {},
        Conversion::XyzD65ToXyzD50 => {},
        Conversion::XyzD50ToXyzD65 => {},
        Conversion::XyzD50ToLab => {},
        Conversion::LabToXyzD50 => {},
        Conversion::LabToLch => {},
        Conversion::LchToLab => {},
        Conversion::XyzD65ToOklab => {},
        Conversion::OklabToXyzD65 => {},
        Conversion::OklabToOklch => {},
        Conversion::OklchToOklab => {},
    }
}

proof fn lemma_parent_depth(s: ColourSpace)
    ensures
        s != ColourSpace::Rgb ==> depth_of(parent_of(s)) + 1 == depth_of(s),
{
    reveal(parent_of);
    reveal(depth_of);
}

proof fn lemma_ancestor_add(s: ColourSpace, a: nat, b: nat)
    ensures
        ancestor(s, a + b) == ancestor(ancestor(s, a), b),
    decreases b,
{
    if b > 0 {
        lemma_ancestor_add(s, a, (b - 1) as nat);
        assert((a + b - 1) as nat == a + (b - 1) as nat);
    }
}

proof fn lemma_stop_is_source(steps: Seq<Conversion>, from: ColourSpace, to: ColourSpace, i: int)
    requires
        is_chain(steps, from, to),
        0 <= i < steps.len(),
    ensures
        stop_after(steps, from, i) == source_of(steps[i]),
{
    if i > 0 {
        let j = i - 1;
        assert(target_of(steps[j]) == source_of(steps[j + 1]));
    }
}

/// The first `k` steps of the chain climb towards RGB, one parent at a time.
proof fn lemma_climb(steps: Seq<Conversion>, from: ColourSpace, to: ColourSpace, k: int, i: int)
    requires
        is_chain(steps, from, to),
        0 <= i <= k <= steps.len(),
        forall|j: int| 0 <= j < k ==> is_upward(#[trigger] steps[j]),
    ensures
        stop_after(steps, from, i) == ancestor(from, i as nat),
        depth_of(stop_after(steps, from, i)) + i == depth_of(from),
    decreases i,
{
    if i > 0 {
        lemma_climb(steps, from, to, k, i - 1);
        lemma_stop_is_source(steps, from, to, i - 1);
        lemma_edge(steps[i - 1]);
        lemma_parent_depth(source_of(steps[i - 1]));
    }
}

/// The steps from `j` on descend, and reach `to`.
proof fn lemma_descend(steps: Seq<Conversion>, from: ColourSpace, to: ColourSpace, k: int, j: int)
    requires
        is_chain(steps, from, to),
        0 <= k <= j <= steps.len(),
        forall|i: int| k <= i < steps.len() ==> !is_upward(#[trigger] steps[i]),
    ensures
        stop_after(steps, from, j) == ancestor(to, (steps.len() - j) as nat),
        depth_of(stop_after(steps, from, j)) + (steps.len() - j) == depth_of(to),
    decreases steps.len() - j,
{
    if j < steps.len() {
        lemma_descend(steps, from, to, k, j + 1);
        lemma_stop_is_source(steps, from, to, j);
        lemma_edge(steps[j]);
        lemma_parent_depth(target_of(steps[j]));
        assert((steps.len() - j) as nat == (steps.len() - (j + 1)) as nat + 1);
    }
}

/// Once a chain that never backtracks descends, it keeps descending: the
/// only way up again is the step just taken, undone.
proof fn lemma_keeps_descending(steps: Seq<Conversion>, from: ColourSpace, to: ColourSpace, k: int, j: int)
    requires
        is_chain(steps, from, to),
        never_backtracks(steps),
        0 <= k <= j < steps.len(),
        !is_upward(steps[k]),
    ensures
        !is_upward(steps[j]),
    decreases j - k,
{
    if j > k {
        lemma_keeps_descending(steps, from, to, k, j - 1);
        let i = j - 1;
        assert(target_of(steps[i]) == source_of(steps[i + 1]));
        assert(steps[i + 1] != inverse_of(steps[i]));
        lemma_edge(steps[i]);
        lemma_edge(steps[j]);
    }
}

spec fn first_descent(steps: Seq<Conversion>, i: int) -> int
    decreases steps.len() - i,
{
    if i >= steps.len() || !is_upward(steps[i]) {
        i
    } else {
        first_descent(steps, i + 1)
    }
}

proof fn lemma_first_descent(steps: Seq<Conversion>, i: int)
    requires
        0 <= i <= steps.len(),
        forall|j: int| 0 <= j < i ==> is_upward(#[trigger] steps[j]),
    ensures
        i <= first_descent(steps, i) <= steps.len(),
        forall|j: int| 0 <= j < first_descent(steps, i) ==> is_upward(#[trigger] steps[j]),
        first_descent(steps, i) < steps.len() ==> !is_upward(steps[first_descent(steps, i)]),
    decreases steps.len() - i,
{
    if i < steps.len() && is_upward(steps[i]) {
        lemma_first_descent(steps, i + 1);
    }
}

/// A chain that never backtracks climbs `k` steps and then descends: each
/// step is fixed by where the chain stands.
proof fn lemma_shape(steps: Seq<Conversion>, from: ColourSpace, to: ColourSpace) -> (k: int)
    requires
        is_chain(steps, from, to),
        never_backtracks(steps),
    ensures
        0 <= k <= steps.len(),
        forall|i: int| 0 <= i < k ==> #[trigger] steps[i] == up_from(ancestor(from, i as nat)),
        forall|i: int|
            k <= i < steps.len() ==> #[trigger] steps[i] == down_into(
                ancestor(to, (steps.len() - 1 - i) as nat),
            ),
        ancestor(from, k as nat) == ancestor(to, (steps.len() - k) as nat),
        depth_of(ancestor(from, k as nat)) + k == depth_of(from),
        depth_of(ancestor(to, (steps.len() - k) as nat)) + (steps.len() - k) == depth_of(to),
{
    lemma_first_descent(steps, 0);
    let k = first_descent(steps, 0);
    assert forall|j: int| k <= j < steps.len() implies !is_upward(#[trigger] steps[j]) by {
        lemma_keeps_descending(steps, from, to, k, j);
    }
    assert forall|i: int| 0 <= i < k implies #[trigger] steps[i] == up_from(
        ancestor(from, i as nat),
    ) by {
        lemma_climb(steps, from, to, k, i);
        lemma_stop_is_source(steps, from, to, i);
        lemma_edge(steps[i]);
    }
    assert forall|i: int| k <= i < steps.len() implies #[trigger] steps[i] == down_into(
        ancestor(to, (steps.len() - 1 - i) as nat),
    ) by {
        lemma_descend(steps, from, to, k, i + 1);
        lemma_edge(steps[i]);
    }
    lemma_climb(steps, from, to, k, k);
    lemma_descend(steps, from, to, k, k);
    k
}

proof fn lemma_no_later_turn(
    s: Seq<Conversion>,
    t: Seq<Conversion>,
    from: ColourSpace,
    to: ColourSpace,
    ks: int,
    kt: int,
)
    requires
        is_chain(t, from, to),
        never_backtracks(t),
        0 <= ks,
        0 <= kt <= t.len(),
        0 <= s.len() - ks,
        ancestor(from, ks as nat) == ancestor(to, (s.len() - ks) as nat),
        depth_of(ancestor(from, ks as nat)) + ks == depth_of(from),
        depth_of(ancestor(to, (s.len() - ks) as nat)) + (s.len() - ks) == depth_of(to),
        forall|i: int| 0 <= i < kt ==> #[trigger] t[i] == up_from(ancestor(from, i as nat)),
        forall|i: int|
            kt <= i < t.len() ==> #[trigger] t[i] == down_into(
                ancestor(to, (t.len() - 1 - i) as nat),
            ),
        ancestor(from, kt as nat) == ancestor(to, (t.len() - kt) as nat),
        depth_of(ancestor(from, kt as nat)) + kt == depth_of(from),
        depth_of(ancestor(to, (t.len() - kt) as nat)) + (t.len() - kt) == depth_of(to),
    ensures
        kt <= ks,
{
    if ks < kt {
        let m = s.len() - ks;
        let mt = t.len() - kt;
        assert(mt - m == kt - ks);
        let d = kt - 1 - ks;
        lemma_ancestor_add(from, ks as nat, d as nat);
        lemma_ancestor_add(to, m as nat, d as nat);
        assert((ks + d) as nat == (kt - 1) as nat);
        assert((m + d) as nat == (t.len() - 1 - kt) as nat);
        let i = kt - 1;
        assert(t[i] == up_from(ancestor(from, i as nat)));
        assert(t[i + 1] == down_into(ancestor(to, (t.len() - 1 - (i + 1)) as nat)));
        assert(t[i + 1] != inverse_of(t[i]));
        lemma_edge(t[i]);
    }
}

/// Two chains between the same representations that never undo their
/// previous step are the same chain: the conversions form a tree, with one
/// direct path between any two representations.
pub proof fn lemma_direct_chain_unique(
    s: Seq<Conversion>,
    t: Seq<Conversion>,
    from: ColourSpace,
    to: ColourSpace,
)
    requires
        is_chain(s, from, to),
        never_backtracks(s),
        is_chain(t, from, to),
        never_backtracks(t),
    ensures
        s == t,
{
    let ks = lemma_shape(s, from, to);
    let kt = lemma_shape(t, from, to);
    lemma_no_later_turn(s, t, from, to, ks, kt);
    lemma_no_later_turn(t, s, from, to, kt, ks);
    {
        assert(s.len() == t.len());
        assert forall|i: int| 0 <= i < s.len() implies s[i] == t[i] by {
            if i < ks {
                assert(s[i] == up_from(ancestor(from, i as nat)));
                assert(t[i] == up_from(ancestor(from, i as nat)));
            } else {
                assert(s[i] == down_into(ancestor(to, (s.len() - 1 - i) as nat)));
                assert(t[i] == down_into(ancestor(to, (t.len() - 1 - i) as nat)));
            }
        }
        assert(s =~= t);
    }
}

} // verus!
