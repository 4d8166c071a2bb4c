//! The pure rules of profile building and registration: how a flake URI is
//! taken apart and the configuration attribute assembled, how a name is
//! quoted for the expression language, and which build result denotes the
//! profile's store path.  Invoking the builder itself is process work and
//! happens outside the library.

use vstd::prelude::*;

verus! {

/// Errors of flake-URI handling.
#[derive(Clone, Copy, PartialEq, Eq, Structural, Debug)]
pub enum FlakeUriError {
    /// The URI holds more than one `#`.
    TooManyHashes,
}

/// Errors of build-output selection.
#[derive(Clone, Copy, PartialEq, Eq, Structural, Debug)]
pub enum BuildOutputError {
    /// Not exactly one build result was returned.
    NotSingleResult,
    /// The single result has no `out` output.
    MissingOutOutput,
}

/// One build result: its derivation path and its named outputs.
pub struct NixBuildOutput {
    pub drv_path: String,
    pub outputs: Vec<(String, String)>,
}

/// `s` without its trailing `#` characters.
pub open spec fn trim_hashes(s: Seq<char>) -> Seq<char>
    decreases s.len(),
{
    if s.len() > 0 && s.last() == '#' {
        trim_hashes(s.drop_last())
    } else {
        s
    }
}

/// Index of the first `#` of `s`, or `s.len()` if there is none.
pub open spec fn first_hash(s: Seq<char>) -> int
    decreases s.len(),
{
    if s.len() == 0 {
        0
    } else if s[0] == '#' {
        0
    } else {
        1 + first_hash(s.skip(1))
    }
}

proof fn lemma_first_hash(s: Seq<char>, n: int)
    requires
        0 <= n <= s.len(),
        forall|m: int| 0 <= m < n ==> s[m] != '#',
        n == s.len() || s[n] == '#',
    ensures
        first_hash(s) == n,
    decreases n,
{
    if s.len() == 0 {
    } else if s[0] == '#' {
        assert(n == 0);
    } else {
        assert(n >= 1);
        let s1 = s.skip(1);
        assert(s1 == s.subrange(1, s.len() as int));
        assert forall|m: int| 0 <= m < n - 1 implies s1[m] != '#' by {
            assert(s.subrange(1, s.len() as int)[m] == s[m + 1]);
        }
        if n < s.len() {
            assert(s1[n - 1] == s[n as int]);
        }
        lemma_first_hash(s1, n - 1);
    }
}

proof fn lemma_trim_hashes(s: Seq<char>, n: int)
    requires
        0 <= n <= s.len(),
        forall|m: int| n <= m < s.len() ==> s[m] == '#',
        n == 0 || s[n - 1] != '#',
    ensures
        trim_hashes(s) == s.take(n),
    decreases s.len(),
{
    if s.len() > 0 && s.last() == '#' {
        assert(n < s.len()) by {
            if n == s.len() {
                assert(s[n - 1] != '#');
                assert(s.last() == s[s.len() - 1]);
            }
        }
        assert(forall|m: int| n <= m < s.drop_last().len() ==> s.drop_last()[m] == s[m]);
        lemma_trim_hashes(s.drop_last(), n);
        assert(s.drop_last().take(n) =~= s.take(n));
    } else {
        assert(n == s.len()) by {
            if n < s.len() {
                assert(s[s.len() - 1] == '#');
            }
        }
        assert(s.take(n) =~= s);
    }
}

/// Split a flake URI into its flake part and its optional attribute.
/// Trailing `#` characters are dropped first; at most one `#` may remain.
#[verifier::loop_isolation(false)]
pub fn split_flake_uri(uri: &str) -> (r: Result<(String, Option<String>), FlakeUriError>)
    ensures
        r matches Ok((flake, attr)) ==> {
            let t = trim_hashes(uri@);
            &&& flake@ == t.take(first_hash(t))
            &&& (attr is None <==> first_hash(t) == t.len())
            &&& (attr matches Some(a) ==> first_hash(t) < t.len() && a@ == t.skip(
                first_hash(t) + 1,
            ) && (forall|m: int| 0 <= m < a@.len() ==> a@[m] != '#'))
        },
        r is Err ==> r == Err::<(String, Option<String>), FlakeUriError>(
            FlakeUriError::TooManyHashes,
        ),
{
    let n0 = uri.unicode_len();
    // drop trailing `#`s
    let mut n = n0;
    while n > 0 && uri.get_char(n - 1) == '#'
        invariant
            0 <= n <= n0,
            n0 == uri@.len(),
            forall|m: int| n <= m < n0 ==> uri@[m] == '#',
        decreases n,
    {
        n -= 1;
    }
    let ghost t = trim_hashes(uri@);
    proof {
        lemma_trim_hashes(uri@, n as int);
        assert(t == uri@.take(n as int));
    }
    // find the first `#` in the trimmed part
    let mut fh: usize = 0;
    while fh < n && uri.get_char(fh) != '#'
        invariant
            0 <= fh <= n,
            forall|m: int| 0 <= m < fh ==> uri@[m] != '#',
        decreases n - fh,
    {
        fh += 1;
    }
    proof {
        assert(forall|m: int| 0 <= m < fh ==> t[m] == uri@[m]);
        if fh < n {
            assert(t[fh as int] == uri@[fh as int]);
        }
        lemma_first_hash(t, fh as int);
    }
    let flake = uri.substring_char(0, fh).to_owned();
    proof {
        assert(flake@ =~= t.take(fh as int));
    }
    if fh == n {
        return Ok((flake, None));
    }
    // check for a second `#`
    let mut j: usize = fh + 1;
    while j < n && uri.get_char(j) != '#'
        invariant
            fh + 1 <= j <= n,
            forall|m: int| fh + 1 <= m < j ==> uri@[m] != '#',
        decreases n - j,
    {
        j += 1;
    }
    if j < n {
        return Err(FlakeUriError::TooManyHashes);
    }
    let attr = uri.substring_char(fh + 1, n).to_owned();
    proof {
        assert(attr@ =~= t.skip(fh as int + 1));
        assert(forall|m: int| 0 <= m < attr@.len() ==> attr@[m] == uri@[m + fh + 1]);
    }
    Ok((flake, Some(attr)))
}

/// Quote a name for the expression language: the name between two double
/// quotes, its characters unchanged.
pub fn escape_nix_string(s: &str) -> (r: String)
    ensures
        r@ == seq!['"'] + s@ + seq!['"'],
{
    proof {
        reveal_strlit("\"");
    }
    let mut out: String = "\"".to_owned();
    out.append(s);
    out.append("\"");
    proof {
        assert(out@ =~= seq!['"'] + s@ + seq!['"']);
    }
    out
}

/// The attribute set every configuration lives under.
pub fn flake_attr_root() -> (r: String)
    ensures
        r@ == "systemConfigs"@,
{
    "systemConfigs".to_owned()
}

/// The full URI of one configuration attribute:
/// `<flake>#systemConfigs.<attr>`.
pub fn full_flake_uri(flake: &str, attr: &str) -> (r: String)
    ensures
        r@ == flake@ + seq!['#'] + "systemConfigs"@ + seq!['.'] + attr@,
{
    proof {
        reveal_strlit("#");
        reveal_strlit(".");
    }
    let mut out: String = flake.to_owned();
    out.append("#");
    let root = flake_attr_root();
    out.append(root.as_str());
    out.append(".");
    out.append(attr);
    proof {
        assert(out@ =~= flake@ + seq!['#'] + "systemConfigs"@ + seq!['.'] + attr@);
    }
    out
}

/// An attribute qualified by the host's platform: `<system>.<attr>`.
pub fn system_qualified_attr(system: &str, attr: &str) -> (r: String)
    ensures
        r@ == system@ + seq!['.'] + attr@,
{
    proof {
        reveal_strlit(".");
    }
    let mut out: String = system.to_owned();
    out.append(".");
    out.append(attr);
    proof {
        assert(out@ =~= system@ + seq!['.'] + attr@);
    }
    out
}

/// The store path of the one build result: there must be exactly one
/// result, and its first output named `out` is the answer.
#[verifier::loop_isolation(false)]
pub fn select_build_output(results: &Vec<NixBuildOutput>) -> (r: Result<String, BuildOutputError>)
    ensures
        results@.len() != 1 ==> r == Err::<String, BuildOutputError>(
            BuildOutputError::NotSingleResult,
        ),
        results@.len() == 1 ==> {
            &&& (r is Ok <==> exists|i: int|
                0 <= i < results@[0].outputs@.len() && (#[trigger] results@[0].outputs@[i]).0@
                    == "out"@)
            &&& (r matches Ok(v) ==> exists|i: int|
                0 <= i < results@[0].outputs@.len() && (#[trigger] results@[0].outputs@[i]).0@
                    == "out"@ && v@ == results@[0].outputs@[i].1@ && (forall|m: int|
                    0 <= m < i ==> (#[trigger] results@[0].outputs@[m]).0@ != "out"@))
            &&& (r is Err ==> r == Err::<String, BuildOutputError>(
                BuildOutputError::MissingOutOutput,
            ))
        },
{
    if results.len() != 1 {
        return Err(BuildOutputError::NotSingleResult);
    }
    let outputs = &results[0].outputs;
    let expected: String = "out".to_owned();
    let mut i: usize = 0;
    while i < outputs.len()
        invariant
            0 <= i <= outputs@.len(),
            forall|m: int| 0 <= m < i ==> (#[trigger] outputs@[m]).0@ != "out"@,
        decreases outputs@.len() - i,
    {
        if outputs[i].0 == expected {
            return Ok(outputs[i].1.clone());
        }
        i += 1;
    }
    Err(BuildOutputError::MissingOutOutput)
}

} // verus!
