//! Where files lie: read-only assets, logs and data stand side by side below one root.

use vstd::prelude::*;
use vstd::string::{StrSliceExecFns, StringExecFns};

verus! {

/// `name` below `root`, with one separator between them; just `name` when there is no root.
pub open spec fn below(root: Seq<char>, name: Seq<char>) -> Seq<char> {
    if root.len() == 0 || root.last() == '/' {
        root + name
    } else {
        root.push('/') + name
    }
}

fn join(root: &str, name: &str) -> (r: String)
    ensures
        r@ == below(root@, name@),
{
    let n: usize = root.unicode_len();
    let mut r: String = String::from_str(root);
    if n > 0 && root.get_char(n - 1) != '/' {
        proof {
            reveal_strlit("/");
            assert("/"@ =~= seq!['/']);
            assert(root@ + "/"@ =~= root@.push('/'));
        }
        r.append("/");
    }
    r.append(name);
    r
}

/// The root: what was set for it, or else the program's directory where that has assets, or else
/// the source tree.
pub fn install_root(
    set: Option<String>,
    exe_dir: Option<String>,
    exe_dir_has_assets: bool,
    source_tree: String,
) -> (r: String)
    ensures
        r == (match set {
            Some(s) => s,
            None => match exe_dir {
                Some(d) => if exe_dir_has_assets {
                    d
                } else {
                    source_tree
                },
                None => source_tree,
            },
        }),
{
    if let Some(s) = set {
        return s;
    }
    if let Some(d) = exe_dir {
        if exe_dir_has_assets {
            return d;
        }
    }
    source_tree
}

/// Read-only assets.
pub fn assets_dir(root: &str) -> (r: String)
    ensures
        r@ == below(root@, "assets"@),
{
    join(root, "assets")
}

/// Logs.
pub fn logs_dir(root: &str) -> (r: String)
    ensures
        r@ == below(root@, "logs"@),
{
    join(root, "logs")
}

/// Data that outlives a run.
pub fn data_dir(root: &str) -> (r: String)
    ensures
        r@ == below(root@, "data"@),
{
    join(root, "data")
}

/// The ray tracer's shader package.
pub fn dda_wesl_dir(root: &str) -> (r: String)
    ensures
        r@ == below(below(below(root@, "assets"@), "shaders"@), "voxel_raytrace"@),
{
    let a: String = assets_dir(root);
    let b: String = join(a.as_str(), "shaders");
    join(b.as_str(), "voxel_raytrace")
}

/// A path below a root begins with the root and ends with the name; between the two stands one
/// separator, the root's own last character where that is one.
pub proof fn lemma_below(root: Seq<char>, name: Seq<char>)
    ensures
        ({
            let p = below(root, name);
            let n = p.len() - name.len();
            &&& p.take(root.len() as int) == root
            &&& p.skip(n) == name
            &&& root.len() <= n <= root.len() + 1
            &&& root.len() > 0 ==> p[n - 1] == '/'
            &&& root.len() > 0 && root.last() == '/' ==> n == root.len()
            &&& root.len() == 0 ==> p == name
        }),
{
    let p = below(root, name);
    assert(p.take(root.len() as int) =~= root);
    assert(p.skip(p.len() - name.len()) =~= name);
    if root.len() == 0 {
        assert(p =~= name);
    }
}

} // verus!
