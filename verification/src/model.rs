//! The closed set of supported remote model identifiers and their fixed
//! canonical wire names.

use vstd::prelude::*;

verus! {

/// A supported remote model. Each variant has a fixed canonical wire name,
/// distinct from its in-memory name; see [`Model::wire_name`].
#[derive(Clone, Copy, Debug, PartialEq, Eq, Structural)]
pub enum Model {
    Llama2_70bChatHf,
    StableBeluga2,
    Guanaco65b,
    Llama65bHf,
    Bloomz,
}

impl Model {
    /// The canonical wire name of this model, as a sequence of characters.
    pub open spec fn spec_wire_name(self) -> Seq<char> {
        match self {
            Model::Llama2_70bChatHf => "meta-llama/Llama-2-70b-chat-hf"@,
            Model::StableBeluga2 => "stabilityai/StableBeluga2"@,
            Model::Guanaco65b => "timdettmers/guanaco-65b"@,
            Model::Llama65bHf => "enoch/llama-65b-hf"@,
            Model::Bloomz => "bigscience/bloomz"@,
        }
    }

    /// The canonical wire name of this model.
    pub fn wire_name(&self) -> (s: &'static str)
        ensures
            s@ == self.spec_wire_name(),
    {
        match self {
            Model::Llama2_70bChatHf => "meta-llama/Llama-2-70b-chat-hf",
            Model::StableBeluga2 => "stabilityai/StableBeluga2",
            Model::Guanaco65b => "timdettmers/guanaco-65b",
            Model::Llama65bHf => "enoch/llama-65b-hf",
            Model::Bloomz => "bigscience/bloomz",
        }
    }
}

/// The model a wire name stands for, if any.
pub open spec fn wire_to_model(w: Seq<char>) -> Option<Model> {
    if w == Model::Llama2_70bChatHf.spec_wire_name() {
        Some(Model::Llama2_70bChatHf)
    } else if w == Model::StableBeluga2.spec_wire_name() {
        Some(Model::StableBeluga2)
    } else if w == Model::Guanaco65b.spec_wire_name() {
        Some(Model::Guanaco65b)
    } else if w == Model::Llama65bHf.spec_wire_name() {
        Some(Model::Llama65bHf)
    } else if w == Model::Bloomz.spec_wire_name() {
        Some(Model::Bloomz)
    } else {
        None
    }
}

/// The model a wire name stands for.
pub fn model_from_wire(w: &str) -> (r: Option<Model>)
    ensures
        r == wire_to_model(w@),
{
    if crate::text::str_eq(w, "meta-llama/Llama-2-70b-chat-hf") {
        Some(Model::Llama2_70bChatHf)
    } else if crate::text::str_eq(w, "stabilityai/StableBeluga2") {
        Some(Model::StableBeluga2)
    } else if crate::text::str_eq(w, "timdettmers/guanaco-65b") {
        Some(Model::Guanaco65b)
    } else if crate::text::str_eq(w, "enoch/llama-65b-hf") {
        Some(Model::Llama65bHf)
    } else if crate::text::str_eq(w, "bigscience/bloomz") {
        Some(Model::Bloomz)
    } else {
        None
    }
}

/// Decoding a model's wire name gives that model back.
pub proof fn lemma_wire_roundtrip(m: Model)
    ensures
        wire_to_model(m.spec_wire_name()) == Some(m),
{
    lemma_wire_name_injective(m, Model::Llama2_70bChatHf);
    lemma_wire_name_injective(m, Model::StableBeluga2);
    lemma_wire_name_injective(m, Model::Guanaco65b);
    lemma_wire_name_injective(m, Model::Llama65bHf);
    lemma_wire_name_injective(m, Model::Bloomz);
}

/// The wire names of distinct models are distinct: the mapping from model to
/// canonical wire string is injective, so a decoded wire name identifies one
/// model.
pub proof fn lemma_wire_name_injective(a: Model, b: Model)
    ensures
        a.spec_wire_name() == b.spec_wire_name() ==> a == b,
{
    reveal_strlit("meta-llama/Llama-2-70b-chat-hf");
    reveal_strlit("stabilityai/StableBeluga2");
    reveal_strlit("timdettmers/guanaco-65b");
    reveal_strlit("enoch/llama-65b-hf");
    reveal_strlit("bigscience/bloomz");
    // The five wire names all have distinct lengths.
    assert(Model::Llama2_70bChatHf.spec_wire_name().len() == 30);
    assert(Model::StableBeluga2.spec_wire_name().len() == 25);
    assert(Model::Guanaco65b.spec_wire_name().len() == 23);
    assert(Model::Llama65bHf.spec_wire_name().len() == 18);
    assert(Model::Bloomz.spec_wire_name().len() == 17);
}

} // verus!
