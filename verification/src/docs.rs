//! Building, serving and checking the project documentation with mdbook:
//! where it runs and what its outcomes mean.

use vstd::prelude::*;

verus! {

/// Documentation tasks.
pub struct Docs;

impl Docs {
    /// The project root: the directory that holds the package manifest.
    pub fn project_root(manifest_dir: &str) -> (root: &str)
        ensures
            root@ == manifest_dir@,
    {
        manifest_dir
    }

    /// The arguments that build the book in `docs`.
    pub fn build_args() -> (args: Vec<&'static str>)
        ensures
            args@.len() == 2,
            args@[0]@ == "build"@,
            args@[1]@ == "docs"@,
    {
        let mut args: Vec<&'static str> = Vec::new();
        args.push("build");
        args.push("docs");
        args
    }

    /// The arguments that serve the book in `docs` and open it.
    pub fn serve_args() -> (args: Vec<&'static str>)
        ensures
            args@.len() == 3,
            args@[0]@ == "serve"@,
            args@[1]@ == "docs"@,
            args@[2]@ == "--open"@,
    {
        let mut args: Vec<&'static str> = Vec::new();
        args.push("serve");
        args.push("docs");
        args.push("--open");
        args
    }

    /// The arguments that test the book in `docs`.
    pub fn check_args() -> (args: Vec<&'static str>)
        ensures
            args@.len() == 2,
            args@[0]@ == "test"@,
            args@[1]@ == "docs"@,
    {
        let mut args: Vec<&'static str> = Vec::new();
        args.push("test");
        args.push("docs");
        args
    }

    /// The error when mdbook could not be started.
    pub fn launch_error(detail: &str) -> (e: String)
        ensures
            e@ == "Failed to execute mdbook: "@ + detail@,
    {
        String::from_str("Failed to execute mdbook: ").concat(detail)
    }

    /// The outcome of building: success, or the build's error output.
    pub fn build_outcome(success: bool, stderr: &str) -> (r: Result<(), String>)
        ensures
            success ==> r is Ok,
            !success ==> (r matches Err(e) && e@ == "mdbook build failed: "@ + stderr@),
    {
        if success {
            Ok(())
        } else {
            Err(String::from_str("mdbook build failed: ").concat(stderr))
        }
    }

    /// The outcome of serving: success, or a failure.
    pub fn serve_outcome(success: bool) -> (r: Result<(), String>)
        ensures
            success ==> r is Ok,
            !success ==> (r matches Err(e) && e@ == "mdbook serve failed"@),
    {
        if success {
            Ok(())
        } else {
            Err(String::from_str("mdbook serve failed"))
        }
    }

    /// The outcome of checking: success, or the check's error output.
    pub fn check_outcome(success: bool, stderr: &str) -> (r: Result<(), String>)
        ensures
            success ==> r is Ok,
            !success ==> (r matches Err(e) && e@ == "mdbook test failed: "@ + stderr@),
    {
        if success {
            Ok(())
        } else {
            Err(String::from_str("mdbook test failed: ").concat(stderr))
        }
    }
}

} // verus!
