use vstd::prelude::*;

verus! {

/// The closed set of properties that a template may reference.
#[derive(Clone, Copy, PartialEq, Eq, Structural, Hash, Debug)]
pub enum Name {
    File,
    Include,
    Input,
    Package,
    Release,
}

/// The external string form of each property name.
pub open spec fn name_str(n: Name) -> Seq<char> {
    match n {
        Name::File => "files"@,
        Name::Include => "include"@,
        Name::Input => "input"@,
        Name::Package => "package"@,
        Name::Release => "release"@,
    }
}

impl Name {
    /// Every name, each exactly once.
    pub fn all() -> (r: [Name; 5])
        ensures
            r@ == seq![Name::File, Name::Include, Name::Input, Name::Package, Name::Release],
    {
        [Name::File, Name::Include, Name::Input, Name::Package, Name::Release]
    }

    pub fn as_str(&self) -> (r: &'static str)
        ensures
            r@ == name_str(*self),
    {
        match self {
            Name::File => "files",
            Name::Include => "include",
            Name::Package => "package",
            Name::Release => "release",
            Name::Input => "input",
        }
    }
}

} // verus!
