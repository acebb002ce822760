//! The choice of the compiler release for a contract.
use vstd::prelude::*;
use crate::loader::option::SolidityOption;
use crate::shared::dfg::utils::{trimmed, trim_range};
use crate::text::{chars_of, owned};

verus! {

/// The compiler release used where the source does not name one.
pub open spec fn default_version() -> Seq<char> {
    "v0.4.24"@
}

/// The pragma that names a release.
pub open spec fn pragma() -> Seq<char> {
    "pragma solidity ^"@
}

/// The characters of `s` before the first `^` or `;`.
pub open spec fn version_part(s: Seq<char>) -> Seq<char>
    decreases s.len(),
{
    if s.len() == 0 || s[0] == '^' || s[0] == ';' {
        seq![]
    } else {
        seq![s[0]] + version_part(s.drop_first())
    }
}

/// The release that `source` asks for: where the trimmed source begins with
/// `pragma solidity ^`, `v` and what follows the `^` up to the next `^` or
/// `;`; else the default release.
pub open spec fn spec_version(source: Seq<char>) -> Seq<char> {
    let t = trimmed(source);
    if pragma().is_prefix_of(t) {
        "v"@ + version_part(t.subrange(pragma().len() as int, t.len() as int))
    } else {
        default_version()
    }
}

/// Where a release of the compiler is downloaded from.
pub open spec fn spec_solc_url(version: Seq<char>) -> Seq<char> {
    "https://github.com/ethereum/solidity/releases/download/"@ + version + "/solc-static-linux"@
}

/// The compiler release that `source` asks for: see `spec_version`.
pub fn solc_version(source: &str) -> (r: String)
    ensures
        r@ == spec_version(source@),
{
    let all = chars_of(source);
    let t = trim_range(&all, 0, all.len());
    proof {
        assert(all@.subrange(0, all@.len() as int) =~= all@);
        reveal_strlit("pragma solidity ^");
    }
    let p = chars_of("pragma solidity ^");
    let mut is_pragma = p.len() <= t.len();
    let mut k: usize = 0;
    while is_pragma && k < p.len()
        invariant
            is_pragma ==> p@.len() <= t@.len(),
            k <= p@.len(),
            is_pragma ==> forall|q: int| 0 <= q < k ==> t@[q] == p@[q],
            !is_pragma ==> !p@.is_prefix_of(t@),
        decreases p@.len() - k,
    {
        if t[k] != p[k] {
            is_pragma = false;
        }
        k = k + 1;
    }
    assert(is_pragma ==> t@.subrange(0, p@.len() as int) =~= p@);
    if !is_pragma {
        return owned("v0.4.24");
    }
    let mut out = owned("v");
    let mut i: usize = p.len();
    proof { reveal_strlit("v"); }
    while i < t.len() && t[i] != '^' && t[i] != ';'
        invariant
            p@.len() <= i <= t@.len(),
            out@ + version_part(t@.subrange(i as int, t@.len() as int))
                == "v"@ + version_part(t@.subrange(p@.len() as int, t@.len() as int)),
        decreases t@.len() - i,
    {
        proof {
            assert(t@.subrange(i as int, t@.len() as int).drop_first() =~= t@.subrange(i + 1, t@.len() as int));
        }
        let c = t[i];
        let ghost before = out@;
        crate::text::push_char(&mut out, c);
        i = i + 1;
    }
    out
}

/// Where the compiler release `version` is downloaded from.
pub fn solc_url(version: &str) -> (r: String)
    ensures
        r@ == spec_solc_url(version@),
{
    let mut out = owned("https://github.com/ethereum/solidity/releases/download/");
    out.append(version);
    out.append("/solc-static-linux");
    out
}

/// Compiles a contract with the release of the compiler that it asks for.
pub struct Solidity<'a> {
    pub option: SolidityOption<'a>,
}

impl<'a> Solidity<'a> {
    pub fn new(option: SolidityOption<'a>) -> (r: Solidity<'a>)
        ensures
            r.option == option,
    {
        Solidity { option }
    }
}

} // verus!
