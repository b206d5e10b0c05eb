//! The weights of single layers, taken off a checkpoint by their names.

use vstd::prelude::*;

use crate::error::{Error, ErrorModel};
use crate::text::joined;
use crate::weights::{self, WeightMap};

verus! {

/// Which layers of a checkpoint have a quantization scheme: those that are named
/// as the name says, and any other as the default says.
#[derive(Debug)]
pub struct Schemes {
    /// Whether a layer that is not named has one.
    pub default: bool,
    /// Whether a layer has one, by its path.
    pub layers: WeightMap<bool>,
}

impl Schemes {
    /// Whether the layer of a path has a scheme.
    pub open spec fn covers(&self, path: Seq<char>) -> bool {
        if self.layers@.contains_key(path) {
            self.layers@[path]
        } else {
            self.default
        }
    }

    /// Whether the layer of a path below a tower has a scheme.
    pub fn has_scheme(&self, tower: &str, path: &str) -> (r: bool)
        ensures
            r == self.covers(tower@ + path@),
    {
        let full: String = joined(tower, path);
        match self.layers.get(full.as_str()) {
            Some(quantized) => *quantized,
            None => self.default,
        }
    }
}

/// A linear layer: its weight, its bias, and the scales and the biases of its
/// quantization.
#[derive(Debug)]
pub struct Linear<W> {
    pub weight: W,
    pub bias: Option<W>,
    pub scales: Option<W>,
    pub biases: Option<W>,
}

impl<W> Linear<W> {
    /// Whether the layer is quantized.
    pub fn is_quantized(&self) -> (r: bool)
        ensures
            r == self.scales is Some,
    {
        self.scales.is_some()
    }
}

/// A layer normalisation.
#[derive(Debug)]
pub struct Norm<W> {
    pub weight: W,
    pub bias: W,
}

/// A weight that may be there, and what is left.
pub open spec fn optional<W>(m: Map<Seq<char>, W>, key: Seq<char>) -> (
    Option<W>,
    Map<Seq<char>, W>,
) {
    if m.contains_key(key) {
        (Some(m[key]), m.remove(key))
    } else {
        (None, m)
    }
}

/// A linear layer with the given bias, and what is left: quantized where it has
/// both a scheme and scales.
pub open spec fn linear<W>(
    m: Map<Seq<char>, W>,
    context: &'static str,
    prefix: Seq<char>,
    scheme: bool,
    bias: Option<W>,
) -> Result<(Linear<W>, Map<Seq<char>, W>), ErrorModel> {
    match weights::taken(m, context, prefix + ".weight"@) {
        Err(e) => Err(e),
        Ok((weight, m1)) => if scheme && m1.contains_key(prefix + ".scales"@) {
            let (scales, m2) = optional(m1, prefix + ".scales"@);
            let (biases, m3) = optional(m2, prefix + ".biases"@);
            Ok((Linear { weight, bias, scales, biases }, m3))
        } else {
            Ok((Linear { weight, bias, scales: None, biases: None }, m1))
        },
    }
}

/// A linear layer whose bias may be there, and what is left.
pub open spec fn linear_with_bias<W>(
    m: Map<Seq<char>, W>,
    context: &'static str,
    prefix: Seq<char>,
    scheme: bool,
) -> Result<(Linear<W>, Map<Seq<char>, W>), ErrorModel> {
    match linear(m, context, prefix, scheme, None) {
        Err(e) => Err(e),
        Ok((l, m1)) => {
            let (bias, m2) = optional(m1, prefix + ".bias"@);
            Ok((Linear { bias, ..l }, m2))
        },
    }
}

/// A layer normalisation, and what is left.
pub open spec fn norm<W>(m: Map<Seq<char>, W>, context: &'static str, prefix: Seq<char>) -> Result<
    (Norm<W>, Map<Seq<char>, W>),
    ErrorModel,
> {
    match weights::taken(m, context, prefix + ".weight"@) {
        Err(e) => Err(e),
        Ok((weight, m1)) => match weights::taken(m1, context, prefix + ".bias"@) {
            Err(e) => Err(e),
            Ok((bias, m2)) => Ok((Norm { weight, bias }, m2)),
        },
    }
}

/// Takes a linear layer with the given bias; see [`linear`].
pub fn take_linear<W>(
    weights: &mut WeightMap<W>,
    context: &'static str,
    prefix: &str,
    scheme: bool,
    bias: Option<W>,
) -> (r: Result<Linear<W>, Error>)
    ensures
        weights::took(
            r,
            old(weights)@,
            final(weights)@,
            linear(old(weights)@, context, prefix@, scheme, bias),
        ),
{
    let weight: W = weights.take_weight(context, joined(prefix, ".weight").as_str())?;
    let scales_key: String = joined(prefix, ".scales");
    if scheme && weights.contains_key(scales_key.as_str()) {
        let scales: Option<W> = weights.remove(scales_key.as_str());
        let biases: Option<W> = weights.remove(joined(prefix, ".biases").as_str());
        Ok(Linear { weight, bias, scales, biases })
    } else {
        Ok(Linear { weight, bias, scales: None, biases: None })
    }
}

/// Takes a linear layer whose bias may be there; see [`linear_with_bias`].
pub fn take_linear_with_bias<W>(
    weights: &mut WeightMap<W>,
    context: &'static str,
    prefix: &str,
    scheme: bool,
) -> (r: Result<Linear<W>, Error>)
    ensures
        weights::took(
            r,
            old(weights)@,
            final(weights)@,
            linear_with_bias(old(weights)@, context, prefix@, scheme),
        ),
{
    let l: Linear<W> = take_linear(weights, context, prefix, scheme, None)?;
    let bias: Option<W> = weights.remove(joined(prefix, ".bias").as_str());
    Ok(Linear { bias, weight: l.weight, scales: l.scales, biases: l.biases })
}

/// Takes a layer normalisation; see [`norm`].
pub fn take_norm<W>(weights: &mut WeightMap<W>, context: &'static str, prefix: &str) -> (r: Result<
    Norm<W>,
    Error,
>)
    ensures
        weights::took(r, old(weights)@, final(weights)@, norm(old(weights)@, context, prefix@)),
{
    let weight: W = weights.take_weight(context, joined(prefix, ".weight").as_str())?;
    let bias: W = weights.take_weight(context, joined(prefix, ".bias").as_str())?;
    Ok(Norm { weight, bias })
}


// ---------------------------------------------------------------------------
// Laws
// ---------------------------------------------------------------------------

/// The weight of a name, where there is one.
pub open spec fn named<W>(m: Map<Seq<char>, W>, key: Seq<char>) -> Option<W> {
    if m.contains_key(key) {
        Some(m[key])
    } else {
        None
    }
}

/// Whether a linear layer holds the weights of a checkpoint under a path: the weight
/// and the bias of that path, and its scales and biases where it has a scheme and
/// scales.
pub open spec fn holds_linear<W>(
    l: Linear<W>,
    m: Map<Seq<char>, W>,
    path: Seq<char>,
    scheme: bool,
) -> bool {
    &&& named(m, path + ".weight"@) == Some(l.weight)
    &&& l.bias == named(m, path + ".bias"@)
    &&& scheme && m.contains_key(path + ".scales"@) ==> l.scales == Some(m[path + ".scales"@])
        && l.biases == named(m, path + ".biases"@)
    &&& !(scheme && m.contains_key(path + ".scales"@)) ==> l.scales is None && l.biases is None
}

/// Whether a normalisation holds the weight and the bias of a checkpoint under a path.
pub open spec fn holds_norm<W>(n: Norm<W>, m: Map<Seq<char>, W>, path: Seq<char>) -> bool {
    &&& named(m, path + ".weight"@) == Some(n.weight)
    &&& named(m, path + ".bias"@) == Some(n.bias)
}

/// Whether two checkpoints agree on a name.
pub open spec fn agree_on<W>(a: Map<Seq<char>, W>, b: Map<Seq<char>, W>, key: Seq<char>) -> bool {
    named(a, key) == named(b, key)
}

/// Whether what is left of a checkpoint is what does not stand right under a path.
pub open spec fn only_under<W>(
    m: Map<Seq<char>, W>,
    rest: Map<Seq<char>, W>,
    path: Seq<char>,
) -> bool {
    forall|key: Seq<char>|
        #![trigger rest.contains_key(key)]
        #![trigger m.contains_key(key)]
        key != path + ".weight"@ && key != path + ".bias"@ && key != path + ".scales"@ && key
            != path + ".biases"@ ==> agree_on(m, rest, key)
}

/// The four names right under a path are four.
pub proof fn lemma_endings_differ(path: Seq<char>)
    ensures
        path + ".weight"@ != path + ".bias"@,
        path + ".weight"@ != path + ".scales"@,
        path + ".weight"@ != path + ".biases"@,
        path + ".bias"@ != path + ".scales"@,
        path + ".bias"@ != path + ".biases"@,
        path + ".scales"@ != path + ".biases"@,
{
    reveal_strlit(".weight");
    reveal_strlit(".bias");
    reveal_strlit(".scales");
    reveal_strlit(".biases");
    let n = path.len() as int;
    assert((path + ".weight"@).len() == n + 7);
    assert((path + ".bias"@).len() == n + 5);
    assert((path + ".scales"@).len() == n + 7);
    assert((path + ".biases"@).len() == n + 7);
    assert((path + ".weight"@)[n + 1] == 'w');
    assert((path + ".scales"@)[n + 1] == 's');
    assert((path + ".biases"@)[n + 1] == 'b');
}

/// A linear layer is taken where its weight is there, and it is the weights of its own
/// path; they are gone then, and no other weight is.
pub proof fn law_a_linear_layer_is_the_weights_of_its_path<W>(
    m: Map<Seq<char>, W>,
    context: &'static str,
    path: Seq<char>,
    scheme: bool,
)
    ensures
        linear_with_bias(m, context, path, scheme) is Ok <==> m.contains_key(path + ".weight"@),
        linear_with_bias(m, context, path, scheme) matches Ok((l, rest)) ==> {
            &&& holds_linear(l, m, path, scheme)
            &&& only_under(m, rest, path)
            &&& !rest.contains_key(path + ".weight"@)
            &&& !rest.contains_key(path + ".bias"@)
            &&& l.scales is Some ==> !rest.contains_key(path + ".scales"@) && !rest.contains_key(
                path + ".biases"@,
            )
            &&& l.scales is None ==> agree_on(m, rest, path + ".scales"@) && agree_on(
                m,
                rest,
                path + ".biases"@,
            )
        },
{
    lemma_endings_differ(path);
}

/// A linear layer with a bias that is given is taken where its weight is there, and it
/// is that bias and the weights of its own path; they are gone then, and no other weight
/// is.
pub proof fn law_a_linear_layer_keeps_the_given_bias<W>(
    m: Map<Seq<char>, W>,
    context: &'static str,
    path: Seq<char>,
    scheme: bool,
    bias: Option<W>,
)
    ensures
        linear(m, context, path, scheme, bias) is Ok <==> m.contains_key(path + ".weight"@),
        linear(m, context, path, scheme, bias) matches Ok((l, rest)) ==> {
            &&& named(m, path + ".weight"@) == Some(l.weight)
            &&& l.bias == bias
            &&& l.scales == (if scheme {
                named(m, path + ".scales"@)
            } else {
                None
            })
            &&& l.biases == (if l.scales is Some {
                named(m, path + ".biases"@)
            } else {
                None
            })
            &&& only_under(m, rest, path)
            &&& agree_on(m, rest, path + ".bias"@)
            &&& !rest.contains_key(path + ".weight"@)
            &&& l.scales is Some ==> !rest.contains_key(path + ".scales"@) && !rest.contains_key(
                path + ".biases"@,
            )
        },
{
    lemma_endings_differ(path);
}

/// A normalisation is taken where its weight and its bias are there, and it is those;
/// they are gone then, and no other weight is.
pub proof fn law_a_norm_is_the_weights_of_its_path<W>(
    m: Map<Seq<char>, W>,
    context: &'static str,
    path: Seq<char>,
)
    ensures
        norm(m, context, path) is Ok <==> m.contains_key(path + ".weight"@) && m.contains_key(
            path + ".bias"@,
        ),
        norm(m, context, path) matches Ok((n, rest)) ==> {
            &&& holds_norm(n, m, path)
            &&& only_under(m, rest, path)
            &&& !rest.contains_key(path + ".weight"@)
            &&& !rest.contains_key(path + ".bias"@)
            &&& agree_on(m, rest, path + ".scales"@)
            &&& agree_on(m, rest, path + ".biases"@)
        },
{
    lemma_endings_differ(path);
}


/// Whether a name begins with some text.
pub open spec fn starts(key: Seq<char>, start: Seq<char>) -> bool {
    &&& start.len() <= key.len()
    &&& forall|i: int| 0 <= i < start.len() ==> #[trigger] key[i] == start[i]
}

/// Whether two checkpoints agree on every name that does not begin with some text.
#[verifier::opaque]
pub open spec fn agree_outside<W>(
    a: Map<Seq<char>, W>,
    b: Map<Seq<char>, W>,
    start: Seq<char>,
) -> bool {
    forall|key: Seq<char>|
        #![trigger a.contains_key(key)]
        #![trigger b.contains_key(key)]
        !starts(key, start) ==> agree_on(a, b, key)
}

/// What is taken right under a path is taken under every beginning of the path.
pub proof fn lemma_only_under_is_inside<W>(
    m: Map<Seq<char>, W>,
    rest: Map<Seq<char>, W>,
    path: Seq<char>,
    start: Seq<char>,
)
    requires
        only_under(m, rest, path),
        starts(path, start),
    ensures
        agree_outside(m, rest, start),
{
    reveal(agree_outside);
    assert forall|key: Seq<char>|
        #![trigger m.contains_key(key)]
        #![trigger rest.contains_key(key)]
        !starts(key, start) implies agree_on(m, rest, key) by {
        assert(starts(path + ".weight"@, start));
        assert(starts(path + ".bias"@, start));
        assert(starts(path + ".scales"@, start));
        assert(starts(path + ".biases"@, start));
        assert(m.contains_key(key) || !m.contains_key(key));
    }
}

/// Whether two checkpoints agree on every name right under a path.
pub open spec fn agree_under<W>(
    a: Map<Seq<char>, W>,
    b: Map<Seq<char>, W>,
    path: Seq<char>,
) -> bool {
    &&& agree_on(a, b, path + ".weight"@)
    &&& agree_on(a, b, path + ".bias"@)
    &&& agree_on(a, b, path + ".scales"@)
    &&& agree_on(a, b, path + ".biases"@)
}

/// Checkpoints that agree outside some beginning agree under a path that differs from
/// it.
pub proof fn lemma_agree_apart<W>(
    a: Map<Seq<char>, W>,
    b: Map<Seq<char>, W>,
    start: Seq<char>,
    path: Seq<char>,
    n: int,
)
    requires
        agree_outside(a, b, start),
        0 <= n < start.len(),
        n < path.len(),
        start[n] != path[n],
    ensures
        agree_under(a, b, path),
{
    reveal(agree_outside);
    assert((path + ".weight"@)[n] == path[n]);
    assert((path + ".bias"@)[n] == path[n]);
    assert((path + ".scales"@)[n] == path[n]);
    assert((path + ".biases"@)[n] == path[n]);
    assert(!starts(path + ".weight"@, start));
    assert(!starts(path + ".bias"@, start));
    assert(!starts(path + ".scales"@, start));
    assert(!starts(path + ".biases"@, start));
    assert(a.contains_key(path + ".weight"@) || !a.contains_key(path + ".weight"@));
    assert(a.contains_key(path + ".bias"@) || !a.contains_key(path + ".bias"@));
    assert(a.contains_key(path + ".scales"@) || !a.contains_key(path + ".scales"@));
    assert(a.contains_key(path + ".biases"@) || !a.contains_key(path + ".biases"@));
}



/// A layer has the scheme that is given for its path, and the default where none is.
pub proof fn law_paths_have_their_own_scheme(schemes: Schemes, path: Seq<char>)
    ensures
        schemes.layers@.contains_key(path) ==> schemes.covers(path) == schemes.layers@[path],
        !schemes.layers@.contains_key(path) ==> schemes.covers(path) == schemes.default,
{
}

/// Whether a name is one of those that a layer under a path may take.
pub open spec fn is_slot(path: Seq<char>, key: Seq<char>) -> bool {
    key == path + ".weight"@ || key == path + ".bias"@ || key == path + ".scales"@ || key == path
        + ".biases"@
}

} // verus!
