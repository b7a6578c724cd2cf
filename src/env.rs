use vstd::prelude::*;

use crate::package::{copy_names, names_of, Package};
use crate::registry::Registry;
use crate::resolver::{explains_failure, is_closure, is_install_order, resolve, ResolutionError};

verus! {

/// Where an environment keeps its tools: `bin/pip` on Unix-like systems,
/// `Scripts\pip.exe` on Windows.
#[derive(Debug, Clone, Copy, PartialEq, Eq, Structural)]
pub enum ScriptLayout {
    Posix,
    Windows,
}

/// The path components of the package installer inside an environment.
pub open spec fn pip_suffix(layout: ScriptLayout) -> Seq<Seq<char>> {
    match layout {
        ScriptLayout::Posix => seq!["bin"@, "pip"@],
        ScriptLayout::Windows => seq!["Scripts"@, "pip.exe"@],
    }
}

/// A component that anchors a path instead of naming a directory: the root
/// `/` on Unix-like systems; on Windows a root or a drive or share prefix, the
/// only components that hold `\`, `/` or `:`.
pub open spec fn is_anchor(layout: ScriptLayout, c: Seq<char>) -> bool {
    match layout {
        ScriptLayout::Posix => c == "/"@,
        ScriptLayout::Windows => exists|k: int|
            0 <= k < c.len() && (c[k] == '\\' || c[k] == '/' || c[k] == ':'),
    }
}

/// A path has a parent unless it is empty or ends in a root or prefix.
pub open spec fn has_parent(layout: ScriptLayout, p: Seq<Seq<char>>) -> bool {
    p.len() > 0 && !is_anchor(layout, p.last())
}

/// The installer argument for `package`, pinned with `==` when a version is given.
pub open spec fn spec_package_spec(package: Seq<char>, version: Option<Seq<char>>) -> Seq<char> {
    match version {
        Some(v) => package + "=="@ + v,
        None => package,
    }
}

/// Failures of provisioning an environment.
#[derive(Debug)]
pub enum EnvError {
    VenvCreationError(String),
    PipInstallError(String),
    PathError(String),
}

/// The text that describes an error: a fixed prefix per kind, then the detail.
pub open spec fn spec_message(e: EnvError) -> Seq<char> {
    match e {
        EnvError::VenvCreationError(d) => "Error creating virtual environment: "@ + d@,
        EnvError::PipInstallError(d) => "Error installing package: "@ + d@,
        EnvError::PathError(d) => "Error with path: "@ + d@,
    }
}

impl EnvError {
    pub fn message(&self) -> (r: String)
        ensures
            r@ == spec_message(*self),
    {
        match self {
            EnvError::VenvCreationError(d) => String::from_str(
                "Error creating virtual environment: ",
            ).concat(d.as_str()),
            EnvError::PipInstallError(d) => String::from_str("Error installing package: ").concat(
                d.as_str(),
            ),
            EnvError::PathError(d) => String::from_str("Error with path: ").concat(d.as_str()),
        }
    }
}

/// Per-project Python environments under one base directory, with the catalog
/// of packages known to them. Paths are sequences of components.
pub struct PythonEnvManager {
    base_path: Vec<String>,
    dependencies: Registry,
    layout: ScriptLayout,
}

impl PythonEnvManager {
    pub closed spec fn spec_base_path(&self) -> Seq<Seq<char>> {
        names_of(self.base_path@)
    }

    pub closed spec fn spec_layout(&self) -> ScriptLayout {
        self.layout
    }

    pub closed spec fn spec_registry(&self) -> Registry {
        self.dependencies
    }

    pub open spec fn wf(&self) -> bool {
        self.spec_registry().wf()
    }

    /// A manager rooted at `base_path` with an empty catalog.
    pub fn new(base_path: Vec<String>, layout: ScriptLayout) -> (r: PythonEnvManager)
        ensures
            r.wf(),
            r.spec_base_path() == names_of(base_path@),
            r.spec_layout() == layout,
            r.spec_registry()@ == Map::<Seq<char>, crate::package::PackageView>::empty(),
    {
        PythonEnvManager { base_path, dependencies: Registry::new(), layout }
    }

    pub fn registry(&self) -> (r: &Registry)
        ensures
            *r == self.spec_registry(),
    {
        &self.dependencies
    }

    /// Records `p` in the catalog, replacing any package of the same name.
    pub fn record_package(&mut self, p: Package)
        requires
            old(self).wf(),
        ensures
            final(self).wf(),
            final(self).spec_registry()@ == old(self).spec_registry()@.insert(p@.name, p@),
            final(self).spec_base_path() == old(self).spec_base_path(),
            final(self).spec_layout() == old(self).spec_layout(),
    {
        self.dependencies.insert(p);
    }

    /// The installer arguments for `root_name` and everything it needs, each
    /// pinned to the version in the catalog, in install order.
    pub fn install_plan(&self, root_name: &String) -> (r: Result<Vec<String>, ResolutionError>)
        requires
            self.wf(),
        ensures
            match r {
                Ok(specs) => exists|order: Seq<Seq<char>>|
                    {
                        &&& root_name@.len() > 0
                        &&& is_install_order(self.spec_registry()@, order)
                        &&& is_closure(self.spec_registry()@, root_name@, order)
                        &&& specs@.len() == order.len()
                        &&& forall|i: int|
                            0 <= i < order.len() ==> #[trigger] specs@[i]@ == spec_package_spec(
                                order[i],
                                Some(self.spec_registry()@[order[i]].version),
                            )
                    },
                Err(e) => explains_failure(self.spec_registry()@, root_name@, e),
            },
    {
        let ghost g = self.dependencies@;
        let order = resolve(&self.dependencies, root_name)?;
        let ghost names = names_of(order@);
        let mut specs: Vec<String> = Vec::new();
        let mut i: usize = 0;
        while i < order.len()
            invariant
                self.wf(),
                g == self.dependencies@,
                names == names_of(order@),
                is_closure(g, root_name@, names),
                i <= order@.len(),
                specs@.len() == i,
                forall|k: int|
                    0 <= k < i ==> #[trigger] specs@[k]@ == spec_package_spec(
                        names[k],
                        Some(g[names[k]].version),
                    ),
            decreases order@.len() - i,
        {
            assert(names.contains(names[i as int]));
            match self.dependencies.lookup(&order[i]) {
                Some(p) => {
                    specs.push(package_spec(&order[i], Some(&p.version)));
                },
                None => {
                    assert(false);
                },
            }
            i = i + 1;
        }
        Ok(specs)
    }

    /// The environment directory of a project: `<base>/<project_name>/.venv`.
    pub fn venv_path(&self, project_name: &String) -> (r: Vec<String>)
        ensures
            names_of(r@) == self.spec_base_path() + seq![project_name@, ".venv"@],
    {
        let mut r = copy_names(&self.base_path);
        let ghost base = names_of(r@);
        r.push(project_name.clone());
        r.push(String::from_str(".venv"));
        assert(names_of(r@) =~= base + seq![project_name@, ".venv"@]);
        r
    }

    /// The installer inside the environment at `venv_path`.
    pub fn get_pip_path(&self, venv_path: &Vec<String>) -> (r: Vec<String>)
        ensures
            names_of(r@) == names_of(venv_path@) + pip_suffix(self.spec_layout()),
    {
        let mut r = copy_names(venv_path);
        let ghost base = names_of(r@);
        match self.layout {
            ScriptLayout::Posix => {
                r.push(String::from_str("bin"));
                r.push(String::from_str("pip"));
            },
            ScriptLayout::Windows => {
                r.push(String::from_str("Scripts"));
                r.push(String::from_str("pip.exe"));
            },
        }
        assert(names_of(r@) =~= base + pip_suffix(self.layout));
        r
    }

    /// Whether `c` is a root or prefix component under this manager's layout.
    pub fn is_anchor_component(&self, c: &String) -> (r: bool)
        ensures
            r == is_anchor(self.spec_layout(), c@),
    {
        match self.layout {
            ScriptLayout::Posix => *c == String::from_str("/"),
            ScriptLayout::Windows => {
                let n = c.as_str().unicode_len();
                let mut k: usize = 0;
                while k < n
                    invariant
                        self.layout == ScriptLayout::Windows,
                        n == c@.len(),
                        k <= n,
                        forall|j: int| 0 <= j < k ==> !(c@[j] == '\\' || c@[j] == '/' || c@[j] == ':'),
                    decreases n - k,
                {
                    let ch = c.as_str().get_char(k);
                    assert(c@[k as int] == ch);
                    if ch == '\\' || ch == '/' || ch == ':' {
                        assert(is_anchor(self.layout, c@));
                        return true;
                    }
                    k = k + 1;
                }
                false
            },
        }
    }

    /// The requirements file beside the environment at `venv_path`, in the
    /// directory that holds it. A path that is empty or ends in a root or
    /// prefix has no parent.
    pub fn requirements_path(&self, venv_path: &Vec<String>) -> (r: Result<Vec<String>, EnvError>)
        ensures
            match r {
                Ok(p) => has_parent(self.spec_layout(), names_of(venv_path@)) && names_of(p@)
                    == names_of(venv_path@).drop_last().push("requirements.txt"@),
                Err(e) => !has_parent(self.spec_layout(), names_of(venv_path@)) && match e {
                    EnvError::PathError(d) => d@ == "Error getting the parent path"@,
                    _ => false,
                },
            },
    {
        if venv_path.len() == 0 || self.is_anchor_component(&venv_path[venv_path.len() - 1]) {
            return Err(EnvError::PathError(String::from_str("Error getting the parent path")));
        }
        let mut r: Vec<String> = Vec::new();
        let parent_len: usize = venv_path.len() - 1;
        let mut i: usize = 0;
        while i < parent_len
            invariant
                parent_len == venv_path@.len() - 1,
                i <= parent_len,
                r@.len() == i,
                forall|k: int| 0 <= k < i ==> #[trigger] r@[k]@ == venv_path@[k]@,
            decreases parent_len - i,
        {
            r.push(venv_path[i].clone());
            i = i + 1;
        }
        r.push(String::from_str("requirements.txt"));
        assert(names_of(r@) =~= names_of(venv_path@).drop_last().push("requirements.txt"@));
        Ok(r)
    }
}

/// The installer argument for `package`: `package==version` when a version is
/// given, else the bare name (the newest release).
pub fn package_spec(package: &String, version: Option<&String>) -> (r: String)
    ensures
        r@ == spec_package_spec(
            package@,
            match version {
                Some(v) => Some(v@),
                None => None,
            },
        ),
{
    match version {
        Some(v) => package.clone().concat("==").concat(v.as_str()),
        None => package.clone(),
    }
}

} // verus!
