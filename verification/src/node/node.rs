//! A node: one vertex's static configuration, a type name plus an indexed
//! property map.

use crate::data::value::{AnyValue, Value};
use crate::util::BSMap;
use vstd::prelude::*;

verus! {

/// A node.
pub struct Node {
    /// Enabled flag.
    pub enabled: bool,
    /// Node type name.
    pub node_type: String,
    /// Property data.
    pub props: BSMap<usize, Value>,
}

impl Node {
    /// The properties, as (port, value) pairs in port order.
    #[verifier::inline]
    pub open spec fn props_view(self) -> Seq<(usize, Value)> {
        self.props@
    }

    /// The property map is sorted with one value per port.
    pub open spec fn wf(self) -> bool {
        crate::util::entries_sorted(self.props_view()) && crate::util::keys_distinct(
            self.props_view(),
        )
    }

    /// Whether some property is set on this port.
    pub open spec fn spec_has_prop(self, property: usize) -> bool {
        exists|i: int|
            0 <= i < self.props_view().len() && (#[trigger] self.props_view()[i]).0 == property
    }

    /// Creates a new empty node of the given node type.
    pub fn empty(node_type: String) -> (r: Node)
        ensures
            r.wf(),
            r.enabled,
            r.node_type == node_type,
            r.props_view() =~= Seq::<(usize, Value)>::empty(),
    {
        Node { enabled: true, node_type, props: BSMap::new() }
    }

    /// Returns true if there are no properties on this node.
    pub fn is_empty(&self) -> (r: bool)
        ensures
            r == (self.props_view().len() == 0),
    {
        self.props.is_empty()
    }

    /// Returns the number of property fields.
    pub fn property_count(&self) -> (r: usize)
        ensures
            r == self.props_view().len(),
    {
        self.props.len()
    }

    /// Returns a property value.
    pub fn get(&self, property: usize) -> (r: Option<&Value>)
        requires
            self.wf(),
        ensures
            match r {
                Some(v) => exists|i: int|
                    0 <= i < self.props_view().len() && #[trigger] self.props_view()[i] == (
                    property,
                    *v,
                ),
                None => !self.spec_has_prop(property),
            },
    {
        self.props.get(&property)
    }

    /// Returns a mutable reference to a property value.
    pub fn get_mut(&mut self, property: usize) -> (r: Option<&mut Value>)
        requires
            old(self).wf(),
        ensures
            final(self).enabled == old(self).enabled,
            final(self).node_type == old(self).node_type,
            match r {
                Some(v) => exists|i: int|
                    {
                        &&& 0 <= i < old(self).props_view().len()
                        &&& #[trigger] old(self).props_view()[i] == (property, *v)
                        &&& final(self).props_view() == old(self).props_view().update(
                            i,
                            (property, *final(v)),
                        )
                    },
                None => !old(self).spec_has_prop(property) && final(self).props_view() == old(
                    self,
                ).props_view(),
            },
    {
        self.props.get_mut(&property)
    }

    /// Sets a property value.
    pub fn set(&mut self, property: usize, value: Value)
        requires
            old(self).wf(),
        ensures
            final(self).wf(),
            final(self).enabled == old(self).enabled,
            final(self).node_type == old(self).node_type,
            final(self).spec_has_prop(property),
            forall|e: (usize, Value)|
                #[trigger] final(self).props_view().contains(e) <==> ((old(
                    self,
                ).props_view().contains(e) && e.0 != property) || e == (property, value)),
            final(self).props_view().len() == old(self).props_view().len() + (if old(
                self,
            ).spec_has_prop(property) {
                0int
            } else {
                1int
            }),
            exists|i: int|
                {
                    &&& 0 <= i < final(self).props_view().len()
                    &&& #[trigger] final(self).props_view()[i] == (property, value)
                    &&& (if old(self).spec_has_prop(property) {
                        0 <= i < old(self).props_view().len() && final(self).props_view() == old(
                            self,
                        ).props_view().update(i, (property, value))
                    } else {
                        0 <= i <= old(self).props_view().len() && final(self).props_view() == old(
                            self,
                        ).props_view().insert(i, (property, value))
                    })
                },
    {
        let ghost m0 = self.props;
        self.props.insert(property, value);
        proof {
            assert(old(self).spec_has_prop(property) <==> m0.spec_contains_key(property)) by {
                if old(self).spec_has_prop(property) {
                    let i = choose|i: int|
                        0 <= i < old(self).props_view().len() && (#[trigger] old(
                            self,
                        ).props_view()[i]).0 == property;
                    assert(m0@[i].0 == property);
                }
                if m0.spec_contains_key(property) {
                    let i = choose|i: int|
                        0 <= i < m0@.len() && (#[trigger] m0@[i]).0 == property;
                    assert(old(self).props_view()[i].0 == property);
                }
            }
        }
        proof {
            assert(self.props.spec_contains_key(property));
            let i = choose|i: int|
                0 <= i < self.props@.len() && (#[trigger] self.props@[i]).0 == property;
            assert(self.props_view()[i].0 == property);
        }
    }

    /// Sets a property to a type-erased dynamic value.
    pub fn set_any(&mut self, property: usize, value: AnyValue)
        requires
            old(self).wf(),
        ensures
            final(self).wf(),
            final(self).enabled == old(self).enabled,
            final(self).node_type == old(self).node_type,
            final(self).spec_has_prop(property),
    {
        self.set(property, Value::Any(value));
    }

    /// Returns the dynamic value on a port, if the port holds one.
    pub fn get_any(&self, property: usize) -> (r: Option<&AnyValue>)
        requires
            self.wf(),
        ensures
            match r {
                Some(v) => exists|i: int|
                    0 <= i < self.props_view().len() && #[trigger] self.props_view()[i] == (
                    property,
                    Value::Any(*v),
                ),
                None => forall|i: int|
                    0 <= i < self.props_view().len() && (#[trigger] self.props_view()[i]).0
                        == property ==> !(self.props_view()[i].1 is Any),
            },
    {
        match self.props.get(&property) {
            Some(v) => match v {
                Value::Any(any) => Some(any),
                _ => {
                    proof {
                        assert forall|i: int|
                            0 <= i < self.props_view().len() && (#[trigger] self.props_view()[
                                i
                            ]).0 == property implies !(self.props_view()[i].1 is Any) by {}
                    }
                    None
                }
            },
            None => None,
        }
    }

    /// Returns true if this node contains dynamically typed values.
    pub fn has_dynamic_values(&self) -> (r: bool)
        ensures
            r == exists|i: int|
                0 <= i < self.props_view().len() && (#[trigger] self.props_view()[i]).1 is Any,
    {
        let entries = self.props.iter();
        let mut j: usize = 0;
        while j < entries.len()
            invariant
                j <= entries@.len(),
                entries@ == self.props_view(),
                forall|i: int| 0 <= i < j ==> !((#[trigger] entries@[i]).1 is Any),
            decreases entries@.len() - j,
        {
            match &entries[j].1 {
                Value::Any(_) => {
                    return true;
                }
                _ => {}
            }
            j += 1;
        }
        false
    }
}

} // verus!
