//! Rows of `label: value` that the entity inspector shows for a component.

use vstd::prelude::*;

use crate::components::{Sprite, Tag, Visibility};
use crate::text::{decimal, push_decimal, signed_decimal, signed_decimal_string};

verus! {

/// A component the inspector can show, as `(label, rendered value)` rows.
pub trait Inspectable {
    fn inspect_rows(&self) -> Vec<(&'static str, String)>;
}

impl Inspectable for Tag {
    fn inspect_rows(&self) -> (r: Vec<(&'static str, String)>)
        ensures
            r@.len() == 1,
            r@[0].0@ == "name"@,
            r@[0].1@ == self.name@,
    {
        vec![("name", self.name.clone())]
    }
}

impl Inspectable for Visibility {
    fn inspect_rows(&self) -> (r: Vec<(&'static str, String)>)
        ensures
            r@.len() == 1,
            r@[0].0@ == "visible"@,
            r@[0].1@ == (if self.visible { "true"@ } else { "false"@ }),
    {
        let value = if self.visible { "true".to_owned() } else { "false".to_owned() };
        vec![("visible", value)]
    }
}

/// The tint as `[r, g, b, a]`.
pub open spec fn tint_text(c: Seq<u8>) -> Seq<char> {
    seq!['['] + decimal(c[0] as nat) + seq![',', ' '] + decimal(c[1] as nat) + seq![',', ' '] + decimal(c[2] as nat)
        + seq![',', ' '] + decimal(c[3] as nat) + seq![']']
}

impl Inspectable for Sprite {
    fn inspect_rows(&self) -> (r: Vec<(&'static str, String)>)
        ensures
            r@.len() == 3,
            r@[0].0@ == "asset"@,
            r@[0].1@ == self.asset_id@,
            r@[1].0@ == "tint"@,
            r@[1].1@ == tint_text(self.color@),
            r@[2].0@ == "z"@,
            r@[2].1@ == signed_decimal(self.z_order as int),
    {
        proof {
            reveal_strlit("[");
            reveal_strlit(", ");
            reveal_strlit("]");
        }
        let mut tint = "[".to_owned();
        push_decimal(&mut tint, self.color[0] as u64);
        tint.append(", ");
        push_decimal(&mut tint, self.color[1] as u64);
        tint.append(", ");
        push_decimal(&mut tint, self.color[2] as u64);
        tint.append(", ");
        push_decimal(&mut tint, self.color[3] as u64);
        tint.append("]");
        assert(tint@ =~= tint_text(self.color@));
        vec![("asset", self.asset_id.clone()), ("tint", tint), ("z", signed_decimal_string(self.z_order))]
    }
}

} // verus!
