//! A cache of [`ShapeModel`]s, keyed by log shape, so that a shape searched
//! repeatedly is modelled once.

use std::sync::Arc;

use vstd::prelude::*;

use crate::parsing_spec::ParsingSpec;
use crate::parsing_spec::shape_fragments;
use crate::prefilter::shape::ShapeModel;
use crate::prefilter::shape::models;
use crate::prefilter::shape::unresolved;
use crate::text::str_eq;

verus! {

/// Another handle on the same model (`Arc::clone`); the pointee is shared,
/// so the handle denotes the same value.
#[verifier::external_body]
fn share(model: &Arc<ShapeModel>) -> (r: Arc<ShapeModel>)
    ensures
        r == *model,
{
    Arc::clone(model)
}

/// What [`ShapeModel::new`] gives for `shape` in `spec`: a model of its
/// fragments, or nothing when a placeholder names no rule.
pub open spec fn model_outcome(spec: ParsingSpec, shape: Seq<char>, outcome: Option<Arc<ShapeModel>>) -> bool {
    match outcome {
        Some(m) => models(m.parts@, shape_fragments(shape), spec),
        None => exists|k: int|
            0 <= k < shape_fragments(shape).len() && (#[trigger] shape_fragments(shape)[k]).0 && unresolved(
                spec,
                shape_fragments(shape)[k].1,
            ),
    }
}

/// A shape-keyed cache of models. An entry of `None` records that the shape
/// has no model, so that it is not resolved again either.
#[derive(Debug)]
pub struct ShapeModelCache {
    models: Vec<(String, Option<Arc<ShapeModel>>)>,
}

impl ShapeModelCache {
    /// The cached `(shape, outcome)` entries, in the order they were added.
    pub closed spec fn entries(self) -> Seq<(String, Option<Arc<ShapeModel>>)> {
        self.models@
    }

    pub fn new() -> (r: Self)
        ensures
            r.entries().len() == 0,
    {
        ShapeModelCache { models: Vec::new() }
    }

    /// The model for `shape`, built and cached on a miss. A hit returns the
    /// cached outcome and leaves the cache as it was.
    pub fn get(&mut self, spec: &ParsingSpec, shape: &str) -> (r: Option<Arc<ShapeModel>>)
        requires
            spec.wf(),
        ensures
            match cached_position(old(self).entries(), shape@) {
                Some(i) => r == old(self).entries()[i].1 && final(self).entries() == old(self).entries(),
                None => model_outcome(*spec, shape@, r) && final(self).entries().len() == old(self).entries().len()
                    + 1 && final(self).entries().drop_last() == old(self).entries()
                    && final(self).entries().last().0@ == shape@ && final(self).entries().last().1 == r,
            },
    {
        let mut i: usize = 0;
        while i < self.models.len()
            invariant
                0 <= i <= self.models@.len(),
                *self == *old(self),
                forall|k: int| 0 <= k < i ==> (#[trigger] self.models@[k]).0@ != shape@,
            decreases self.models.len() - i,
        {
            if str_eq(self.models[i].0.as_str(), shape) {
                proof {
                    lemma_first_position(self.models@, shape@, i as int);
                }
                return match &self.models[i].1 {
                    Some(model) => Some(share(model)),
                    None => None,
                };
            }
            i = i + 1;
        }
        proof {
            assert(!exists|k: int| 0 <= k < self.models@.len() && (#[trigger] self.models@[k]).0@ == shape@);
        }
        let model: Option<Arc<ShapeModel>> = match ShapeModel::new(spec, shape) {
            Some(m) => Some(Arc::new(m)),
            None => None,
        };
        let cached: Option<Arc<ShapeModel>> = match &model {
            Some(m) => Some(share(m)),
            None => None,
        };
        let ghost before = self.models@;
        self.models.push((shape.to_owned(), cached));
        proof {
            assert(self.models@.drop_last() =~= before);
        }
        model
    }

    /// The number of cached shapes.
    pub fn len(&self) -> (r: usize)
        ensures
            r == self.entries().len(),
    {
        self.models.len()
    }

    /// Whether nothing is cached yet.
    pub fn is_empty(&self) -> (r: bool)
        ensures
            r == (self.entries().len() == 0),
    {
        self.models.len() == 0
    }

    /// Drops every cached model.
    pub fn clear(&mut self)
        ensures
            final(self).entries().len() == 0,
    {
        self.models.clear();
    }
}

impl Clone for ShapeModelCache {
    /// Copies the entries; the models themselves are shared.
    fn clone(&self) -> (r: Self)
        ensures
            r.entries().len() == self.entries().len(),
            forall|k: int|
                0 <= k < r.entries().len() ==> (#[trigger] r.entries()[k]).0@ == self.entries()[k].0@
                    && r.entries()[k].1 == self.entries()[k].1,
    {
        let mut models: Vec<(String, Option<Arc<ShapeModel>>)> = Vec::new();
        let mut i: usize = 0;
        while i < self.models.len()
            invariant
                0 <= i <= self.models@.len(),
                models@.len() == i,
                forall|k: int|
                    0 <= k < i ==> (#[trigger] models@[k]).0@ == self.models@[k].0@ && models@[k].1
                        == self.models@[k].1,
            decreases self.models.len() - i,
        {
            let shared: Option<Arc<ShapeModel>> = match &self.models[i].1 {
                Some(m) => Some(share(m)),
                None => None,
            };
            models.push((self.models[i].0.clone(), shared));
            i = i + 1;
        }
        ShapeModelCache { models }
    }
}

/// The position of the first entry for `shape`, if any.
pub open spec fn cached_position(entries: Seq<(String, Option<Arc<ShapeModel>>)>, shape: Seq<char>) -> Option<int> {
    if exists|k: int| 0 <= k < entries.len() && (#[trigger] entries[k]).0@ == shape {
        Some(
            choose|k: int|
                0 <= k < entries.len() && (#[trigger] entries[k]).0@ == shape && forall|j: int|
                    0 <= j < k ==> (#[trigger] entries[j]).0@ != shape,
        )
    } else {
        None
    }
}

proof fn lemma_first_position(entries: Seq<(String, Option<Arc<ShapeModel>>)>, shape: Seq<char>, i: int)
    requires
        0 <= i < entries.len(),
        entries[i].0@ == shape,
        forall|k: int| 0 <= k < i ==> (#[trigger] entries[k]).0@ != shape,
    ensures
        cached_position(entries, shape) == Some(i),
{
    let w = choose|k: int|
        0 <= k < entries.len() && (#[trigger] entries[k]).0@ == shape && forall|j: int|
            0 <= j < k ==> (#[trigger] entries[j]).0@ != shape;
    assert(0 <= i < entries.len() && entries[i].0@ == shape && forall|j: int| 0 <= j < i ==> (#[trigger] entries[j]).0@ != shape);
    if w < i {
        assert(entries[w].0@ != shape);
    } else if w > i {
        assert(entries[i].0@ != shape);
    }
}

} // verus!
