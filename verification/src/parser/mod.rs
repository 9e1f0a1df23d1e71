pub mod cargo;
pub mod go;
pub mod npm;
pub mod poetry;

pub use crate::graph::bfs;

use vstd::prelude::*;

use self::cargo::CargoParser;
use self::go::GoParser;
use self::npm::NpmParser;
use self::poetry::PoetryParser;

verus! {

/// Which of the files that tell ecosystems apart a project directory holds.
#[derive(Debug, Clone, Copy)]
pub struct ProjectFiles {
    pub cargo_lock: bool,
    pub package_lock_json: bool,
    pub bun_lock: bool,
    pub bun_lockb: bool,
    pub package_json: bool,
    /// `node_modules` exists and is a directory.
    pub node_modules_dir: bool,
    pub poetry_lock: bool,
    pub pyproject_toml: bool,
    pub go_mod: bool,
}

/// An ecosystem that the tool can read.
pub trait StackParser {
    /// The name under which the ecosystem is reported.
    fn name(&self) -> &'static str;

    /// Whether a project with these files belongs to the ecosystem.
    fn detect(&self, files: &ProjectFiles) -> bool;
}

impl StackParser for CargoParser {
    fn name(&self) -> (r: &'static str)
        ensures
            r@ == "Rust (Cargo)"@,
    {
        "Rust (Cargo)"
    }

    fn detect(&self, files: &ProjectFiles) -> (b: bool)
        ensures
            b == files.cargo_lock,
    {
        files.cargo_lock
    }
}

impl StackParser for NpmParser {
    fn name(&self) -> (r: &'static str)
        ensures
            r@ == "Node.js (npm/bun)"@,
    {
        "Node.js (npm/bun)"
    }

    fn detect(&self, files: &ProjectFiles) -> (b: bool)
        ensures
            b == (files.package_lock_json || files.bun_lock || files.bun_lockb || (
            files.package_json && files.node_modules_dir)),
    {
        files.package_lock_json || files.bun_lock || files.bun_lockb || (files.package_json
            && files.node_modules_dir)
    }
}

impl StackParser for PoetryParser {
    fn name(&self) -> (r: &'static str)
        ensures
            r@ == "Python (Poetry)"@,
    {
        "Python (Poetry)"
    }

    fn detect(&self, files: &ProjectFiles) -> (b: bool)
        ensures
            b == (files.poetry_lock && files.pyproject_toml),
    {
        files.poetry_lock && files.pyproject_toml
    }
}

impl StackParser for GoParser {
    fn name(&self) -> (r: &'static str)
        ensures
            r@ == "Go (go mod)"@,
    {
        "Go (go mod)"
    }

    fn detect(&self, files: &ProjectFiles) -> (b: bool)
        ensures
            b == files.go_mod,
    {
        files.go_mod
    }
}

/// The ecosystems, in the order in which they are tried.
#[derive(Debug, Clone, Copy, PartialEq, Eq)]
pub enum ParserKind {
    Cargo,
    Npm,
    Poetry,
    Go,
}

pub open spec fn detects(kind: ParserKind, files: ProjectFiles) -> bool {
    match kind {
        ParserKind::Cargo => files.cargo_lock,
        ParserKind::Npm => files.package_lock_json || files.bun_lock || files.bun_lockb || (
        files.package_json && files.node_modules_dir),
        ParserKind::Poetry => files.poetry_lock && files.pyproject_toml,
        ParserKind::Go => files.go_mod,
    }
}

pub open spec fn kind_name(kind: ParserKind) -> Seq<char> {
    match kind {
        ParserKind::Cargo => "Rust (Cargo)"@,
        ParserKind::Npm => "Node.js (npm/bun)"@,
        ParserKind::Poetry => "Python (Poetry)"@,
        ParserKind::Go => "Go (go mod)"@,
    }
}

pub open spec fn parser_order() -> Seq<ParserKind> {
    seq![ParserKind::Cargo, ParserKind::Npm, ParserKind::Poetry, ParserKind::Go]
}

impl StackParser for ParserKind {
    fn name(&self) -> (r: &'static str)
        ensures
            r@ == kind_name(*self),
    {
        match self {
            ParserKind::Cargo => CargoParser.name(),
            ParserKind::Npm => NpmParser.name(),
            ParserKind::Poetry => PoetryParser.name(),
            ParserKind::Go => GoParser.name(),
        }
    }

    fn detect(&self, files: &ProjectFiles) -> (b: bool)
        ensures
            b == detects(*self, *files),
    {
        match self {
            ParserKind::Cargo => CargoParser.detect(files),
            ParserKind::Npm => NpmParser.detect(files),
            ParserKind::Poetry => PoetryParser.detect(files),
            ParserKind::Go => GoParser.detect(files),
        }
    }
}

/// Every ecosystem, in the order in which detection tries them.
pub fn parsers() -> (r: Vec<ParserKind>)
    ensures
        r@ == parser_order(),
{
    let r = vec![ParserKind::Cargo, ParserKind::Npm, ParserKind::Poetry, ParserKind::Go];
    assert(r@ =~= parser_order());
    r
}

/// The first ecosystem, in `parsers()` order, that recognises the project.
pub fn select_parser(files: &ProjectFiles) -> (r: Option<ParserKind>)
    ensures
        r matches Some(k) ==> detects(k, *files) && exists|i: int|
            0 <= i < parser_order().len() && parser_order()[i] == k && forall|j: int|
                0 <= j < i ==> !detects(#[trigger] parser_order()[j], *files),
        r is None ==> forall|j: int|
            0 <= j < parser_order().len() ==> !detects(#[trigger] parser_order()[j], *files),
        files.cargo_lock ==> r == Some(ParserKind::Cargo),
        !files.cargo_lock && (files.package_lock_json || files.bun_lock || files.bun_lockb || (
        files.package_json && files.node_modules_dir)) ==> r == Some(ParserKind::Npm),
        !files.cargo_lock && !files.package_lock_json && !files.bun_lock && !files.bun_lockb && !(
        files.package_json && files.node_modules_dir) && files.poetry_lock && files.pyproject_toml
            ==> r == Some(ParserKind::Poetry),
        !files.cargo_lock && !files.package_lock_json && !files.bun_lock && !files.bun_lockb && !(
        files.package_json && files.node_modules_dir) && !(files.poetry_lock
            && files.pyproject_toml) && files.go_mod ==> r == Some(ParserKind::Go),
        r is None <==> !files.cargo_lock && !files.package_lock_json && !files.bun_lock
            && !files.bun_lockb && !(files.package_json && files.node_modules_dir) && !(
        files.poetry_lock && files.pyproject_toml) && !files.go_mod,
{
    let all = parsers();
    let n = all.len();
    for i in 0..n
        invariant
            n == all@.len(),
            all@ == parser_order(),
            forall|j: int| 0 <= j < i ==> !detects(#[trigger] parser_order()[j], *files),
    {
        if all[i].detect(files) {
            return Some(all[i]);
        }
    }
    None
}

} // verus!
