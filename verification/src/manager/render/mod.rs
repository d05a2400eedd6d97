use vstd::prelude::*;

pub mod errors;
pub mod events;
pub mod layers;
pub mod update;

verus! {

/// Identifies a layer in the layer tree, by the integer form of its tree key.
#[derive(Clone, Copy, PartialEq, Eq, Debug, Hash)]
pub struct LayerId(pub u64);

/// The layers one widget owns: the layer it draws its head commands into, the child layers
/// its canvas opened, and the tail layer drawn after its children.
#[derive(Clone, Debug)]
pub struct WidgetLayers {
    pub head: Option<LayerId>,
    pub children: Vec<LayerId>,
    pub tail: Option<LayerId>,
}

/// The layer a widget's children draw into: its tail once it has opened child layers, and
/// otherwise its tail or, failing that, its head.
pub open spec fn next_layer(head: Option<LayerId>, children: Seq<LayerId>, tail: Option<LayerId>) -> Option<LayerId> {
    if children.len() > 0 {
        tail
    } else if tail is Some {
        tail
    } else {
        head
    }
}

impl WidgetLayers {
    /// No layers.
    pub fn new() -> (layers: WidgetLayers)
        ensures
            layers.head.is_none(),
            layers.children@.len() == 0,
            layers.tail.is_none(),
    {
        WidgetLayers { head: None, children: Vec::new(), tail: None }
    }

    /// The layer this widget's children draw into. If the widget opened any child layers, the
    /// next layer must be the tail.
    pub fn next(&self) -> (layer: Option<LayerId>)
        ensures
            layer == next_layer(self.head, self.children@, self.tail),
    {
        if self.children.len() > 0 {
            self.tail
        } else {
            match self.tail {
                Some(tail) => Some(tail),
                None => self.head,
            }
        }
    }
}

} // verus!
