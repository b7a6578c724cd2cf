use vstd::prelude::*;

verus! {

/// The mathematical value of a package record.
pub ghost struct PackageView {
    pub name: Seq<char>,
    pub version: Seq<char>,
    pub dependencies: Seq<Seq<char>>,
}

/// A named unit with an opaque version label and the names of its direct
/// dependencies, in declaration order.
#[derive(Debug)]
pub struct Package {
    pub name: String,
    pub version: String,
    pub dependencies: Vec<String>,
}

/// The names held by a sequence of strings, as character sequences.
pub open spec fn names_of(v: Seq<String>) -> Seq<Seq<char>> {
    v.map_values(|s: String| s@)
}

impl View for Package {
    type V = PackageView;

    open spec fn view(&self) -> PackageView {
        PackageView {
            name: self.name@,
            version: self.version@,
            dependencies: names_of(self.dependencies@),
        }
    }
}

/// Copies a list of names, one string at a time.
pub fn copy_names(v: &Vec<String>) -> (r: Vec<String>)
    ensures
        names_of(r@) == names_of(v@),
{
    let mut r: Vec<String> = Vec::new();
    let mut i: usize = 0;
    while i < v.len()
        invariant
            i <= v@.len(),
            r@.len() == i,
            forall|k: int| 0 <= k < i ==> r@[k]@ == v@[k]@,
        decreases v@.len() - i,
    {
        let s = v[i].clone();
        r.push(s);
        i = i + 1;
    }
    assert(names_of(r@) =~= names_of(v@));
    r
}

impl Package {
    pub fn new(name: String, version: String, dependencies: Vec<String>) -> (r: Package)
        ensures
            r.name@ == name@,
            r.version@ == version@,
            r@.dependencies == names_of(dependencies@),
    {
        Package { name, version, dependencies }
    }

    /// A field-by-field copy with the same value.
    pub fn duplicate(&self) -> (r: Package)
        ensures
            r@ == self@,
    {
        Package {
            name: self.name.clone(),
            version: self.version.clone(),
            dependencies: copy_names(&self.dependencies),
        }
    }
}

} // verus!
