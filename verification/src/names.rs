//! Package names: the canonical form of a name, and the rule by which a
//! typed name is matched against the packages that a project knows.

use vstd::prelude::*;
use crate::chars::{chars_of, starts_with, str_eq};

verus! {

/// Two characters that a package name does not tell apart.
pub open spec fn same_name_char(a: char, b: char) -> bool {
    a == b || (a == '_' && b == '-') || (a == '-' && b == '_')
}

/// Two names that differ at most in `-` against `_`.
pub open spec fn names_match(a: Seq<char>, b: Seq<char>) -> bool {
    a.len() == b.len() && forall|i: int| 0 <= i < a.len() ==> same_name_char(a[i], b[i])
}

/// Compares two package names, taking `-` and `_` for the same character.
pub fn eq_ignoring_dash_underscore(a: &str, b: &str) -> (r: bool)
    ensures
        r == names_match(a@, b@),
{
    let xs = chars_of(a);
    let ys = chars_of(b);
    if xs.len() != ys.len() {
        return false;
    }
    let mut i: usize = 0;
    while i < xs.len()
        invariant
            i <= xs@.len(),
            xs@ == a@,
            ys@ == b@,
            xs@.len() == ys@.len(),
            forall|k: int| 0 <= k < i ==> same_name_char(xs@[k], ys@[k]),
        decreases xs@.len() - i,
    {
        let x = xs[i];
        let y = ys[i];
        if !(x == y || (x == '_' && y == '-') || (x == '-' && y == '_')) {
            assert(!same_name_char(a@[i as int], b@[i as int]));
            return false;
        }
        i += 1;
    }
    true
}

/// The code by which a typed package name is compared: that of `_` for
/// `-`, and that of the small letter for an ASCII capital.
pub open spec fn folded(c: char) -> u32 {
    if c == '-' {
        '_' as u32
    } else if 'A' <= c && c <= 'Z' {
        (c as u32 + 32) as u32
    } else {
        c as u32
    }
}

/// Two names that differ at most in `-` against `_` and in the case of ASCII
/// letters.
pub open spec fn names_alike(a: Seq<char>, b: Seq<char>) -> bool {
    a.len() == b.len() && forall|i: int| 0 <= i < a.len() ==> folded(a[i]) == folded(b[i])
}

fn fold(c: char) -> (r: u32)
    ensures
        r == folded(c),
{
    if c == '-' {
        '_' as u32
    } else if 'A' <= c && c <= 'Z' {
        c as u32 + 32
    } else {
        c as u32
    }
}

/// Compares two package names, taking `-` and `_` for the same character
/// and ignoring the case of ASCII letters.
pub fn eq_ignoring_case_dash_underscore(a: &str, b: &str) -> (r: bool)
    ensures
        r == names_alike(a@, b@),
{
    let xs = chars_of(a);
    let ys = chars_of(b);
    if xs.len() != ys.len() {
        return false;
    }
    let mut i: usize = 0;
    while i < xs.len()
        invariant
            i <= xs@.len(),
            xs@ == a@,
            ys@ == b@,
            xs@.len() == ys@.len(),
            forall|k: int| 0 <= k < i ==> folded(xs@[k]) == folded(ys@[k]),
        decreases xs@.len() - i,
    {
        if fold(xs[i]) != fold(ys[i]) {
            assert(folded(a@[i as int]) != folded(b@[i as int]));
            return false;
        }
        i += 1;
    }
    true
}

/// Names that match but for `-` against `_` are alike.
pub proof fn lemma_match_is_alike(a: Seq<char>, b: Seq<char>)
    requires
        names_match(a, b),
    ensures
        names_alike(a, b),
{
    assert forall|i: int| 0 <= i < a.len() implies folded(a[i]) == folded(b[i]) by {
        assert(same_name_char(a[i], b[i]));
    }
}

/// The names of the built-in runtime packages.
pub open spec fn is_runtime_name(name: Seq<char>) -> bool {
    name == "std"@ || name == "alloc"@ || name == "core"@ || name == "proc_macro"@ || name
        == "test"@
}

/// A name that never stands for a package that can be loaded: the known
/// pseudo-packages and the compiler's internal ones.
pub open spec fn is_unloadable(name: Seq<char>) -> bool {
    name == "std_detect"@ || name == "rustc_literal_escaper"@ || "rustc_"@.is_prefix_of(name)
}

/// The name behind a placeholder of the runtime packages.
pub open spec fn placeholder_target(name: Seq<char>) -> Option<Seq<char>> {
    if name == "alloc_crate"@ {
        Some("alloc"@)
    } else if name == "core_crate"@ {
        Some("core"@)
    } else if name == "proc_macro_crate"@ {
        Some("proc_macro"@)
    } else if name == "test_crate"@ {
        Some("test"@)
    } else if name == "std_crate"@ {
        Some("std"@)
    } else {
        None
    }
}

/// The canonical form of a package name, or `None` for a name that stands
/// for no loadable package.
pub open spec fn canonical(name: Seq<char>) -> Option<Seq<char>> {
    if placeholder_target(name) is Some {
        placeholder_target(name)
    } else if is_unloadable(name) {
        None
    } else {
        Some(name)
    }
}

/// The fixed names differ from one another: in length or in the first character.
pub proof fn lemma_fixed_names()
    ensures
        "crate"@.len() == 5 && "crate"@[0] == 'c',
        "std"@.len() == 3 && "std"@[0] == 's',
        "alloc"@.len() == 5 && "alloc"@[0] == 'a',
        "core"@.len() == 4 && "core"@[0] == 'c',
        "proc_macro"@.len() == 10 && "proc_macro"@[0] == 'p',
        "test"@.len() == 4 && "test"@[0] == 't',
        "std_crate"@.len() == 9 && "std_crate"@[0] == 's',
        "alloc_crate"@.len() == 11 && "alloc_crate"@[0] == 'a',
        "core_crate"@.len() == 10 && "core_crate"@[0] == 'c',
        "proc_macro_crate"@.len() == 16 && "proc_macro_crate"@[0] == 'p',
        "test_crate"@.len() == 10 && "test_crate"@[0] == 't',
        "std_detect"@.len() == 10 && "std_detect"@[0] == 's',
        "rustc_literal_escaper"@.len() == 21 && "rustc_literal_escaper"@[0] == 'r',
        "rustc_"@.len() == 6 && "rustc_"@[0] == 'r',
{
    reveal_strlit("crate");
    reveal_strlit("std");
    reveal_strlit("alloc");
    reveal_strlit("core");
    reveal_strlit("proc_macro");
    reveal_strlit("test");
    reveal_strlit("std_crate");
    reveal_strlit("alloc_crate");
    reveal_strlit("core_crate");
    reveal_strlit("proc_macro_crate");
    reveal_strlit("test_crate");
    reveal_strlit("std_detect");
    reveal_strlit("rustc_literal_escaper");
    reveal_strlit("rustc_");
}

/// A package name in canonical form.
#[derive(Clone, Copy, Debug)]
pub struct CrateName<'a>(&'a str);

impl<'a> CrateName<'a> {
    /// The characters of the name.
    pub closed spec fn view(&self) -> Seq<char> {
        self.0@
    }

    /// The canonical form of `name`: placeholders of the runtime packages
    /// give the package they stand for, pseudo-packages and compiler
    /// internals give `None`, any other name stands for itself.
    pub fn new(name: &'a str) -> (r: Option<Self>)
        ensures
            r is Some <==> canonical(name@) is Some,
            r is Some ==> r->0@ == canonical(name@)->0,
    {
        proof {
            lemma_fixed_names();
        }
        if str_eq(name, "alloc_crate") {
            Some(CrateName("alloc"))
        } else if str_eq(name, "core_crate") {
            Some(CrateName("core"))
        } else if str_eq(name, "proc_macro_crate") {
            Some(CrateName("proc_macro"))
        } else if str_eq(name, "test_crate") {
            Some(CrateName("test"))
        } else if str_eq(name, "std_crate") {
            Some(CrateName("std"))
        } else if str_eq(name, "std_detect") || str_eq(name, "rustc_literal_escaper") {
            None
        } else if starts_with(&chars_of(name), &chars_of("rustc_")) {
            None
        } else {
            Some(CrateName(name))
        }
    }

    /// The name as text.
    pub fn as_str(&self) -> (r: &'a str)
        ensures
            r@ == self@,
    {
        self.0
    }
}

/// What a project knows of package names: the packages it can offer, how
/// many members its workspace has, and the package that `crate` stands for.
#[derive(Clone, Debug)]
pub struct ProjectNames {
    /// The names of the workspace members, the dependencies and the runtime
    /// packages, as the project lists them.
    pub available: Vec<String>,
    /// The number of workspace members.
    pub workspace_members: usize,
    /// The package of the working directory, if there is one.
    pub default_package: Option<String>,
}

/// The first of `available[from..]` that has a canonical form like `name`.
pub open spec fn first_match(available: Seq<String>, name: Seq<char>, from: int) -> Option<
    Seq<char>,
>
    decreases available.len() - from,
{
    if from < 0 || from >= available.len() {
        None
    } else {
        match canonical(available[from]@) {
            Some(c) if names_alike(c, name) => Some(c),
            _ => first_match(available, name, from + 1),
        }
    }
}

/// The package that a typed name stands for in a project.
///
/// `crate` is the default package, but only outside a workspace of several
/// members. A runtime package is named by itself or by its placeholder. Any
/// other name stands for the first available package whose name it is
/// like: `-` and `_` are one, and the case of letters is ignored.
pub open spec fn normalized(p: ProjectNames, name: Seq<char>) -> Option<Seq<char>> {
    if name == "crate"@ {
        if p.workspace_members > 1 {
            None
        } else {
            match p.default_package {
                Some(d) => canonical(d@),
                None => None,
            }
        }
    } else if is_runtime_name(name) {
        Some(name)
    } else if placeholder_target(name) is Some {
        placeholder_target(name)
    } else if is_unloadable(name) {
        None
    } else {
        first_match(p.available@, name, 0)
    }
}

impl ProjectNames {
    /// The canonical name of the package of the working directory.
    pub fn default_crate_name(&self) -> (r: Option<CrateName<'_>>)
        ensures
            match self.default_package {
                Some(d) => r is Some <==> canonical(d@) is Some,
                None => r is None,
            },
            r is Some ==> Some(r->0@) == canonical(self.default_package->0@),
    {
        match &self.default_package {
            Some(d) => CrateName::new(d.as_str()),
            None => None,
        }
    }

    /// Matches a typed package name against the packages of the project.
    pub fn normalize_crate_name<'a>(&'a self, crate_name: &str) -> (r: Option<CrateName<'a>>)
        ensures
            r is Some <==> normalized(*self, crate_name@) is Some,
            r is Some ==> r->0@ == normalized(*self, crate_name@)->0,
    {
        proof {
            lemma_fixed_names();
        }
        if str_eq(crate_name, "crate") {
            if self.workspace_members > 1 {
                None
            } else {
                self.default_crate_name()
            }
        } else if str_eq(crate_name, "alloc") || str_eq(crate_name, "alloc_crate") {
            Some(CrateName("alloc"))
        } else if str_eq(crate_name, "core") || str_eq(crate_name, "core_crate") {
            Some(CrateName("core"))
        } else if str_eq(crate_name, "proc_macro") || str_eq(crate_name, "proc_macro_crate") {
            Some(CrateName("proc_macro"))
        } else if str_eq(crate_name, "test") || str_eq(crate_name, "test_crate") {
            Some(CrateName("test"))
        } else if str_eq(crate_name, "std") || str_eq(crate_name, "std_crate") {
            Some(CrateName("std"))
        } else if str_eq(crate_name, "std_detect") || str_eq(crate_name, "rustc_literal_escaper")
        {
            None
        } else if starts_with(&chars_of(crate_name), &chars_of("rustc_")) {
            None
        } else {
            let mut i: usize = 0;
            while i < self.available.len()
                invariant
                    i <= self.available@.len(),
                    normalized(*self, crate_name@) == first_match(
                        self.available@,
                        crate_name@,
                        0,
                    ),
                    first_match(self.available@, crate_name@, 0) == first_match(
                        self.available@,
                        crate_name@,
                        i as int,
                    ),
                decreases self.available@.len() - i,
            {
                match CrateName::new(self.available[i].as_str()) {
                    Some(c) => {
                        if eq_ignoring_case_dash_underscore(c.as_str(), crate_name) {
                            return Some(c);
                        }
                    },
                    None => {},
                }
                i += 1;
            }
            None
        }
    }
}

} // verus!
