//! A package as named in a repository listing file: its name and its
//! category.

use vstd::prelude::*;

verus! {

/// One listed package.
pub struct Package {
    pub name: String,
    pub category: String,
}

pub struct PackageView {
    pub name: Seq<char>,
    pub category: Seq<char>,
}

impl View for Package {
    type V = PackageView;

    open spec fn view(&self) -> PackageView {
        PackageView { name: self.name@, category: self.category@ }
    }
}

impl Package {
    /// A package with the given name and category.
    pub fn new(name: &str, category: &str) -> (r: Package)
        ensures
            r@.name == name@,
            r@.category == category@,
    {
        Package { name: name.to_owned(), category: category.to_owned() }
    }
}

} // verus!
