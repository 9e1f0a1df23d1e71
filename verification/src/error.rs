use vstd::prelude::*;

verus! {

/// Why a lockfile could not be turned into a graph.
#[derive(Debug, PartialEq, Eq)]
pub enum ParseError {
    /// A Cargo.lock without any `[[package]]`.
    NoPackages,
    /// A Cargo.lock where every package has a `source`.
    NoRootPackage,
    /// A package-lock.json older than version 2.
    UnsupportedLockfileVersion(u32),
    /// A package-lock.json without a `packages` object.
    NoPackagesField,
    /// A package-lock.json whose `packages` has no `""` entry.
    NoRootEntry,
    /// A node_modules tree without any package.
    NoInstalledPackages,
}

/// The character of a decimal digit.
pub open spec fn digit_char(d: nat) -> char {
    if d == 0 {
        '0'
    } else if d == 1 {
        '1'
    } else if d == 2 {
        '2'
    } else if d == 3 {
        '3'
    } else if d == 4 {
        '4'
    } else if d == 5 {
        '5'
    } else if d == 6 {
        '6'
    } else if d == 7 {
        '7'
    } else if d == 8 {
        '8'
    } else {
        '9'
    }
}

/// The decimal notation of `n`, without leading zeros.
pub open spec fn decimal(n: nat) -> Seq<char>
    decreases n,
{
    if n < 10 {
        seq![digit_char(n)]
    } else {
        decimal(n / 10).push(digit_char(n % 10))
    }
}

fn digit(d: u32) -> (c: char)
    requires
        d < 10,
    ensures
        c == digit_char(d as nat),
{
    if d == 0 {
        '0'
    } else if d == 1 {
        '1'
    } else if d == 2 {
        '2'
    } else if d == 3 {
        '3'
    } else if d == 4 {
        '4'
    } else if d == 5 {
        '5'
    } else if d == 6 {
        '6'
    } else if d == 7 {
        '7'
    } else if d == 8 {
        '8'
    } else {
        '9'
    }
}

/// `n` written in decimal.
pub fn decimal_string(n: u32) -> (s: String)
    ensures
        s@ == decimal(n as nat),
    decreases n,
{
    if n < 10 {
        let mut s = String::new();
        s.push(digit(n));
        s
    } else {
        let mut s = decimal_string(n / 10);
        s.push(digit(n % 10));
        s
    }
}

/// The text that each error is reported with.
pub open spec fn error_message(e: ParseError) -> Seq<char> {
    match e {
        ParseError::NoPackages => "No packages found in Cargo.lock"@,
        ParseError::NoRootPackage => "No root package found in Cargo.lock"@,
        ParseError::UnsupportedLockfileVersion(v) => "package-lock.json v"@ + decimal(v as nat)
            + " is not supported. Run `npm i --package-lock-only` to upgrade to v2+."@,
        ParseError::NoPackagesField => "No 'packages' field in package-lock.json"@,
        ParseError::NoRootEntry => "No root entry in package-lock.json"@,
        ParseError::NoInstalledPackages => "No installed packages found in node_modules"@,
    }
}

impl ParseError {
    /// The text that the error is reported with.
    pub fn message(&self) -> (s: String)
        ensures
            s@ == error_message(*self),
    {
        match self {
            ParseError::NoPackages => "No packages found in Cargo.lock".to_owned(),
            ParseError::NoRootPackage => "No root package found in Cargo.lock".to_owned(),
            ParseError::UnsupportedLockfileVersion(v) => {
                let mut s = "package-lock.json v".to_owned();
                let digits = decimal_string(*v);
                s.append(digits.as_str());
                s.append(" is not supported. Run `npm i --package-lock-only` to upgrade to v2+.");
                s
            },
            ParseError::NoPackagesField => "No 'packages' field in package-lock.json".to_owned(),
            ParseError::NoRootEntry => "No root entry in package-lock.json".to_owned(),
            ParseError::NoInstalledPackages => "No installed packages found in node_modules".to_owned(),
        }
    }
}

} // verus!
