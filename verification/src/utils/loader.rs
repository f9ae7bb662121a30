//! Which parameter of a model each tensor of a checkpoint belongs to.
use crate::layers::tensor::LayerError;
use crate::utils::text;
use candle_core::Tensor;
use vstd::prelude::*;

verus! {

/// Which part of a packed parameter a tensor is: the parts of fused attention go by name,
/// those of merged layers by number.
#[derive(Debug, Clone, Copy)]
pub enum ShardId {
    Name(&'static str),
    Index(usize),
}

/// A module that is packed into another one: where `key` stands in the name of a tensor,
/// `target` stands in the name of the parameter.
pub struct PackedModule {
    pub key: String,
    pub target: String,
    pub shard: ShardId,
}

/// What a [`PackedModule`] holds.
pub struct PackedView {
    pub key: Seq<char>,
    pub target: Seq<char>,
    pub shard: ShardId,
}

impl View for PackedModule {
    type V = PackedView;

    open spec fn view(&self) -> PackedView {
        PackedView { key: self.key@, target: self.target@, shard: self.shard }
    }
}

/// A model that tensors can be loaded into, by name.
pub trait ModelWeights: Sized {
    /// The model is in a state in which tensors can be loaded.
    spec fn wf(&self) -> bool;

    /// What `load_weight` makes of the model.
    spec fn loaded(
        before: Self,
        after: Self,
        name: Seq<char>,
        tensor: Tensor,
        shard: Option<ShardId>,
        success: bool,
    ) -> bool;

    /// The modules that are packed into others, in the order in which they are looked for.
    fn packed_modules_mapping(&self) -> (modules: Vec<PackedModule>)
        ensures
            forall|i: int| 0 <= i < modules@.len() ==> (#[trigger] modules@[i])@.key.len() > 0,
    ;

    /// Loads a tensor into the parameter `param_name`. A name that the model does not know
    /// is passed over.
    fn load_weight(
        &mut self,
        param_name: &str,
        loaded_weight: Tensor,
        shard_id: Option<ShardId>,
    ) -> (loaded: Result<(), LayerError>)
        requires
            old(self).wf(),
        ensures
            final(self).wf(),
            Self::loaded(
                *old(self),
                *final(self),
                param_name@,
                loaded_weight,
                shard_id,
                loaded is Ok,
            ),
    ;
}

/// The parameter that a tensor belongs to, and which part of it the tensor is: that of the
/// first packed module, from `i` on, whose key stands in the name, or the name itself.
pub open spec fn param_of(name: Seq<char>, modules: Seq<PackedView>, i: int) -> (
    Seq<char>,
    Option<ShardId>,
)
    decreases modules.len() - i,
{
    if i < 0 || i >= modules.len() {
        (name, None)
    } else if text::occurs_in(name, modules[i].key) {
        (
            text::replaced_from(name, modules[i].key, modules[i].target, 0),
            Some(modules[i].shard),
        )
    } else {
        param_of(name, modules, i + 1)
    }
}

/// What the modules hold.
pub open spec fn module_views(modules: Seq<PackedModule>) -> Seq<PackedView> {
    Seq::new(modules.len(), |i: int| modules[i]@)
}

/// The parameter that a tensor belongs to, and which part of it the tensor is.
pub fn param_name(weight_name: &str, modules: &[PackedModule]) -> (param: (String, Option<ShardId>))
    requires
        forall|i: int| 0 <= i < modules@.len() ==> (#[trigger] modules@[i])@.key.len() > 0,
    ensures
        (param.0@, param.1) == param_of(weight_name@, module_views(modules@), 0),
{
    let ghost views = module_views(modules@);
    let mut i: usize = 0;
    while i < modules.len()
        invariant
            i <= modules@.len(),
            views == module_views(modules@),
            forall|i: int| 0 <= i < modules@.len() ==> (#[trigger] modules@[i])@.key.len() > 0,
            param_of(weight_name@, views, i as int) == param_of(weight_name@, views, 0),
        decreases modules@.len() - i,
    {
        let module = &modules[i];
        assert(views[i as int] == modules@[i as int]@);
        if text::contains(weight_name, module.key.as_str()) {
            let name = text::replace(weight_name, module.key.as_str(), module.target.as_str());
            return (name, Some(module.shard));
        }
        i = i + 1;
    }
    (weight_name.to_owned(), None)
}

/// `states` are those that a model goes through as the first tensors of a checkpoint are
/// loaded, one after the other.
pub open spec fn loading_steps<M: ModelWeights>(
    states: Seq<M>,
    names: Seq<Seq<char>>,
    tensors: Seq<Tensor>,
    modules: Seq<PackedView>,
) -> bool {
    forall|i: int|
        0 <= i < states.len() - 1 ==> M::loaded(
            #[trigger] states[i],
            states[i + 1],
            param_of(names[i], modules, 0).0,
            tensors[i],
            param_of(names[i], modules, 0).1,
            true,
        )
}

/// A model goes from `start` to `end` as all the tensors are loaded.
pub open spec fn all_loaded<M: ModelWeights>(
    states: Seq<M>,
    start: M,
    end: M,
    names: Seq<Seq<char>>,
    tensors: Seq<Tensor>,
    modules: Seq<PackedView>,
) -> bool {
    &&& states.len() == tensors.len() + 1
    &&& states[0] == start
    &&& states.last() == end
    &&& loading_steps(states, names, tensors, modules)
}

/// A model goes from `start` to `end` as tensors are loaded until one of them cannot be.
pub open spec fn stopped<M: ModelWeights>(
    states: Seq<M>,
    start: M,
    end: M,
    names: Seq<Seq<char>>,
    tensors: Seq<Tensor>,
    modules: Seq<PackedView>,
) -> bool {
    let k = states.len() - 1;
    &&& 0 < states.len() <= tensors.len()
    &&& states[0] == start
    &&& loading_steps(states, names, tensors, modules)
    &&& M::loaded(
        states.last(),
        end,
        param_of(names[k], modules, 0).0,
        tensors[k],
        param_of(names[k], modules, 0).1,
        false,
    )
}

/// What the names hold.
pub open spec fn name_views(names: Seq<String>) -> Seq<Seq<char>> {
    Seq::new(names.len(), |i: int| names[i]@)
}

/// Loads the tensors of a checkpoint, one after the other. It stops where one cannot be
/// loaded.
pub fn load_tensors<M: ModelWeights>(
    model: &mut M,
    modules: &Vec<PackedModule>,
    names: &Vec<String>,
    tensors: Vec<Tensor>,
) -> (loaded: Result<(), LayerError>)
    requires
        old(model).wf(),
        names@.len() == tensors@.len(),
        forall|i: int| 0 <= i < modules@.len() ==> (#[trigger] modules@[i])@.key.len() > 0,
    ensures
        final(model).wf(),
        loaded is Ok ==> exists|states: Seq<M>| #[trigger]
            all_loaded(
                states,
                *old(model),
                *final(model),
                name_views(names@),
                tensors@,
                module_views(modules@),
            ),
        loaded is Err ==> exists|states: Seq<M>| #[trigger]
            stopped(
                states,
                *old(model),
                *final(model),
                name_views(names@),
                tensors@,
                module_views(modules@),
            ),
{
    let ghost all = tensors@;
    let ghost views = module_views(modules@);
    let ghost texts = name_views(names@);
    let ghost mut states: Seq<M> = seq![*model];
    let mut i: usize = 0;
    let n = names.len();
    let mut rest = tensors;
    while i < n
        invariant
            i <= n,
            n == names@.len(),
            n == all.len(),
            all == tensors@,
            rest@ == all.subrange(i as int, n as int),
            views == module_views(modules@),
            texts == name_views(names@),
            forall|i: int| 0 <= i < modules@.len() ==> (#[trigger] modules@[i])@.key.len() > 0,
            model.wf(),
            states.len() == i + 1,
            states[0] == *old(model),
            states.last() == *model,
            loading_steps(states, texts, all, views),
        decreases n - i,
    {
        let (param, shard_id) = param_name(names[i].as_str(), modules.as_slice());
        assert(texts[i as int] == names@[i as int]@);
        let tensor = rest.remove(0);
        assert(tensor == all[i as int]);
        assert(rest@ =~= all.subrange(i + 1, n as int));
        match model.load_weight(param.as_str(), tensor, shard_id) {
            Ok(()) => {
                let ghost before = states;
                proof {
                    states = states.push(*model);
                    assert forall|k: int| 0 <= k < states.len() - 1 implies M::loaded(
                        #[trigger] states[k],
                        states[k + 1],
                        param_of(texts[k], views, 0).0,
                        all[k],
                        param_of(texts[k], views, 0).1,
                        true,
                    ) by {
                        if k < before.len() - 1 {
                            assert(states[k] == before[k] && states[k + 1] == before[k + 1]);
                        }
                    }
                }
            },
            Err(error) => {
                assert(stopped(states, *old(model), *model, texts, all, views));
                return Err(error);
            },
        }
        i = i + 1;
    }
    assert(all_loaded(states, *old(model), *model, texts, all, views));
    Ok(())
}

} // verus!
