//! Naming the files of an index: prefixing the last component of a path.
use vstd::prelude::*;
use vstd::string::StringExecFns;

verus! {

/// Why a path cannot be prefixed.
#[derive(Debug, Copy, Clone, PartialEq, Eq, Structural)]
pub enum PathError {
    /// The path has no component.
    Empty,
}

impl PathError {
    /// The message that reports the error.
    pub fn message(&self) -> (r: &'static str)
        ensures
            r@ == "Path is empty"@,
    {
        "Path is empty"
    }
}

/// Takes a path, given as its components, and puts `prefix` and an underscore
/// in front of its last component: `a/b/c` with prefix `p` becomes `a/b/p_c`.
/// An empty path is refused.
pub fn add_prefix_to_path(path: &Vec<String>, prefix: &String) -> (r: Result<Vec<String>, PathError>)
    ensures
        r is Err <==> path@.len() == 0,
        r matches Ok(v) ==> {
            &&& v@.len() == path@.len()
            &&& forall|i: int| 0 <= i < path@.len() - 1 ==> (#[trigger] v@[i])@ == path@[i]@
            &&& v@[v@.len() - 1]@ == prefix@ + "_"@ + path@[path@.len() - 1]@
        },
{
    let n = path.len();
    if n == 0 {
        return Err(PathError::Empty);
    }
    let mut new_path: Vec<String> = Vec::new();
    let mut i: usize = 0;
    while i < n - 1
        invariant
            n == path@.len(),
            n >= 1,
            0 <= i <= n - 1,
            new_path@.len() == i,
            forall|j: int| 0 <= j < i ==> (#[trigger] new_path@[j])@ == path@[j]@,
        decreases n - 1 - i,
    {
        new_path.push(path[i].clone());
        i += 1;
    }
    let last = prefix.clone().concat("_").concat(path[n - 1].as_str());
    new_path.push(last);
    Ok(new_path)
}

} // verus!
