//! The compiler's configuration, built step by step.
use vstd::prelude::*;
use crate::names::string_views;

verus! {

/// The character views of a list of string slices.
pub open spec fn str_views(v: Seq<&str>) -> Seq<Seq<char>> {
    v.map_values(|s: &str| s@)
}

/// What to compile and how: the model to simulate, the extra source files,
/// and whether to report progress.
#[derive(Debug, Default, Clone)]
pub struct Compiler {
    /// Print timing and intermediate results while compiling.
    pub verbose: bool,
    /// The class to simulate.
    pub model_name: Option<String>,
    /// Further source files compiled together with the main one.
    pub additional_files: Vec<String>,
}

impl Compiler {
    /// A compiler with the default settings: quiet, no model chosen, no extra files.
    pub fn new() -> (r: Self)
        ensures
            !r.verbose,
            r.model_name is None,
            r.additional_files@.len() == 0,
    {
        Compiler { verbose: false, model_name: None, additional_files: Vec::new() }
    }

    /// Turns progress reports on or off.
    pub fn verbose(self, verbose: bool) -> (r: Self)
        ensures
            r.verbose == verbose,
            r.model_name == self.model_name,
            r.additional_files == self.additional_files,
    {
        let mut c = self;
        c.verbose = verbose;
        c
    }

    /// Chooses the class to simulate.
    pub fn model(self, name: &str) -> (r: Self)
        ensures
            r.verbose == self.verbose,
            r.model_name matches Some(m) && m@ == name@,
            r.additional_files == self.additional_files,
    {
        let mut c = self;
        c.model_name = Some(name.to_string());
        c
    }

    /// Adds a source file to compile together with the main one.
    pub fn add_source(self, path: &str) -> (r: Self)
        ensures
            r.verbose == self.verbose,
            r.model_name == self.model_name,
            string_views(r.additional_files@) == string_views(self.additional_files@).push(path@),
    {
        let mut c = self;
        c.additional_files.push(path.to_string());
        proof {
            assert(string_views(c.additional_files@) =~= string_views(self.additional_files@).push(path@));
        }
        c
    }

    /// Adds several source files, in order.
    pub fn add_sources(self, paths: &[&str]) -> (r: Self)
        ensures
            r.verbose == self.verbose,
            r.model_name == self.model_name,
            string_views(r.additional_files@) == string_views(self.additional_files@) + str_views(paths@),
    {
        let mut c = self;
        let mut i: usize = 0;
        while i < paths.len()
            invariant
                i <= paths@.len(),
                c.verbose == self.verbose,
                c.model_name == self.model_name,
                string_views(c.additional_files@) == string_views(self.additional_files@) + str_views(paths@.take(i as int)),
            decreases paths.len() - i,
        {
            let ghost before = c.additional_files@;
            c.additional_files.push(paths[i].to_string());
            proof {
                assert(string_views(c.additional_files@) =~= string_views(before).push(paths@[i as int]@));
                assert(str_views(paths@.take(i as int + 1)) =~= str_views(paths@.take(i as int)).push(paths@[i as int]@));
                assert(string_views(c.additional_files@) =~= string_views(self.additional_files@) + str_views(
                    paths@.take(i as int + 1),
                ));
            }
            i = i + 1;
        }
        assert(paths@.take(paths@.len() as int) =~= paths@);
        c
    }

    /// Adds the files found in a package directory, in the order found.
    pub fn add_package(self, discovered: &[String]) -> (r: Self)
        ensures
            r.verbose == self.verbose,
            r.model_name == self.model_name,
            string_views(r.additional_files@) == string_views(self.additional_files@) + string_views(discovered@),
    {
        let mut c = self;
        let mut i: usize = 0;
        while i < discovered.len()
            invariant
                i <= discovered@.len(),
                c.verbose == self.verbose,
                c.model_name == self.model_name,
                string_views(c.additional_files@) == string_views(self.additional_files@) + string_views(
                    discovered@.take(i as int),
                ),
            decreases discovered.len() - i,
        {
            let ghost before = c.additional_files@;
            c.additional_files.push(discovered[i].clone());
            proof {
                assert(string_views(c.additional_files@) =~= string_views(before).push(discovered@[i as int]@));
                assert(string_views(discovered@.take(i as int + 1)) =~= string_views(discovered@.take(i as int)).push(
                    discovered@[i as int]@,
                ));
                assert(string_views(c.additional_files@) =~= string_views(self.additional_files@) + string_views(
                    discovered@.take(i as int + 1),
                ));
            }
            i = i + 1;
        }
        assert(discovered@.take(discovered@.len() as int) =~= discovered@);
        c
    }
}

} // verus!
