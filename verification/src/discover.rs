//! Which directories a search for projects looks into.

use vstd::prelude::*;

use crate::text::{has_prefix, str_eq, str_starts_with};

verus! {

/// Build and cache directories that never hold a project worth finding.
pub open spec fn skipped_dir_names() -> Seq<Seq<char>> {
    seq![
        "target"@,
        "node_modules"@,
        "artifacts"@,
        "venv"@,
        ".venv"@,
        "__pycache__"@,
        "dist"@,
        "build"@,
    ]
}

/// Whether a search for projects prunes the directory `name` found `depth`
/// levels below its root: hidden (dot-prefixed) directories and the build
/// and cache directories are pruned, the root itself never.
pub fn skip_dir(name: &str, depth: usize) -> (r: bool)
    ensures
        r == (depth > 0 && (has_prefix(name@, "."@) || skipped_dir_names().contains(name@))),
{
    if depth == 0 {
        return false;
    }
    if str_starts_with(name, ".") {
        return true;
    }
    let listed = str_eq(name, "target") || str_eq(name, "node_modules") || str_eq(name, "artifacts")
        || str_eq(name, "venv") || str_eq(name, ".venv") || str_eq(name, "__pycache__") || str_eq(
        name,
        "dist",
    ) || str_eq(name, "build");
    proof {
        let s = skipped_dir_names();
        if listed {
            if name@ == "target"@ {
                assert(s[0] == name@);
            } else if name@ == "node_modules"@ {
                assert(s[1] == name@);
            } else if name@ == "artifacts"@ {
                assert(s[2] == name@);
            } else if name@ == "venv"@ {
                assert(s[3] == name@);
            } else if name@ == ".venv"@ {
                assert(s[4] == name@);
            } else if name@ == "__pycache__"@ {
                assert(s[5] == name@);
            } else if name@ == "dist"@ {
                assert(s[6] == name@);
            } else {
                assert(s[7] == name@);
            }
        }
        if s.contains(name@) {
            let i = choose|i: int| 0 <= i < s.len() && s[i] == name@;
            assert(listed);
        }
    }
    listed
}

} // verus!
