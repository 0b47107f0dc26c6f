//! Names of shader modules.

use crate::pbr_texture::names::same_name;
use vstd::prelude::*;
use vstd::string::StringExecFns;

verus! {

/// The module of a package's entry file, by the file's name without its extension. The file
/// `package` is the package itself, and so is one without a name.
pub fn module_name(stem: Option<&str>) -> (r: String)
    ensures
        r@ == (if stem is None || stem->0@ == "package"@ {
            "package"@
        } else {
            "package::"@ + stem->0@
        }),
{
    match stem {
        Some(s) => if same_name(s, "package") {
            String::from_str("package")
        } else {
            let mut r: String = String::from_str("package::");
            r.append(s);
            r
        },
        None => String::from_str("package"),
    }
}

} // verus!
