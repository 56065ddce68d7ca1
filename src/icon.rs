//! Icons that markers can show.

use vstd::prelude::*;
use vstd::string::StringExecFns;

verus! {

/// Metadata of a marker icon.
#[derive(Clone, Debug, PartialEq, Eq)]
pub struct Icon {
    /// Identifier, e.g. `ship`.
    pub id: String,
    /// Display name.
    pub name: String,
    /// File name in the icon directory.
    pub filename: String,
}

impl Icon {
    pub fn new(id: &str, name: &str, filename: &str) -> (r: Self)
        ensures
            r.id@ == id@,
            r.name@ == name@,
            r.filename@ == filename@,
    {
        Icon { id: String::from_str(id), name: String::from_str(name), filename: String::from_str(filename) }
    }
}

/// Whether some icon of `icons` has identifier `id`.
pub open spec fn icon_known(icons: Seq<Icon>, id: Seq<char>) -> bool {
    exists|i: int| 0 <= i < icons.len() && (#[trigger] icons[i]).id@ == id
}

/// Whether some icon of `icons` has identifier `id`.
pub fn find_icon(icons: &[Icon], id: &str) -> (r: bool)
    ensures
        r == icon_known(icons@, id@),
{
    let target = String::from_str(id);
    let mut i: usize = 0;
    while i < icons.len()
        invariant
            target@ == id@,
            i <= icons@.len(),
            forall|j: int| 0 <= j < i ==> (#[trigger] icons@[j]).id@ != id@,
        decreases icons.len() - i,
    {
        if icons[i].id == target {
            return true;
        }
        i = i + 1;
    }
    false
}

} // verus!
