//! The registry of model architectures.

use vstd::prelude::*;

use crate::text::same_text;
use crate::weights::WeightMap;

verus! {

/// The name under which an architecture is registered: its two spellings are one.
pub open spec fn canonical(model_type: Seq<char>) -> Seq<char> {
    if model_type == "lfm2-vl"@ {
        "lfm2_vl"@
    } else {
        model_type
    }
}

/// The name under which an architecture is registered; see [`canonical`].
pub fn remap_vlm_model_type(model_type: &str) -> (r: String)
    ensures
        r@ == canonical(model_type@),
{
    if same_text(model_type, "lfm2-vl") {
        "lfm2_vl".to_owned()
    } else {
        model_type.to_owned()
    }
}

/// The constructors `C` of the architectures that are known, by their names.
#[derive(Debug)]
pub struct VlmTypeRegistry<C> {
    constructors: WeightMap<C>,
}

impl<C> View for VlmTypeRegistry<C> {
    type V = Map<Seq<char>, C>;

    closed spec fn view(&self) -> Map<Seq<char>, C> {
        self.constructors@
    }
}

impl<C> VlmTypeRegistry<C> {
    /// A registry that knows nothing.
    pub fn new() -> (r: Self)
        ensures
            r@ == Map::<Seq<char>, C>::empty(),
    {
        VlmTypeRegistry { constructors: WeightMap::new() }
    }

    /// Whether an architecture is known, under either spelling.
    pub fn contains(&self, model_type: &str) -> (r: bool)
        ensures
            r == self@.contains_key(canonical(model_type@)),
    {
        self.constructors.contains_key(remap_vlm_model_type(model_type).as_str())
    }

    /// Registers a constructor, and gives the one that it displaces, if any.
    pub fn register(&mut self, model_type: &str, constructor: C) -> (r: Option<C>)
        ensures
            final(self)@ == old(self)@.insert(canonical(model_type@), constructor),
            match r {
                Some(displaced) => old(self)@.contains_key(canonical(model_type@)) && displaced
                    == old(self)@[canonical(model_type@)],
                None => !old(self)@.contains_key(canonical(model_type@)),
            },
    {
        let name: String = remap_vlm_model_type(model_type);
        let displaced: Option<C> = self.constructors.remove(name.as_str());
        match self.constructors.insert_unique(name, constructor, "VlmTypeRegistry") {
            Ok(_) => {},
            Err(_) => {},
        }
        assert(self@ =~= old(self)@.insert(canonical(model_type@), constructor));
        displaced
    }
}


/// Only the spelling with a hyphen has another name, and a name stands for itself.
pub proof fn law_names_stand_for_themselves(model_type: Seq<char>)
    ensures
        model_type != "lfm2-vl"@ ==> canonical(model_type) == model_type,
        canonical("lfm2-vl"@) == "lfm2_vl"@,
        canonical(canonical(model_type)) == canonical(model_type),
{
    reveal_strlit("lfm2-vl");
    reveal_strlit("lfm2_vl");
    assert("lfm2-vl"@[4] != "lfm2_vl"@[4]);
}

} // verus!
