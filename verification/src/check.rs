//! The zero-declaration check's own decisions: the throwaway project's
//! name and `Topo.toml`, and the verdict read from `topo-check`'s output.
//! (Materialising the project and running `topo-check` is the host's.)
use vstd::prelude::*;
use crate::text::{owned, chars_of, string_of, extend_str};
use crate::app::App;

verus! {

/// The verdict of a check run.
#[derive(Debug, Clone)]
pub struct CheckResult {
    pub passed: bool,
    pub returncode: i32,
    pub stdout: String,
    pub stderr: String,
}

/// The project name a check uses: the program's namespace, or
/// `topo_app` when it has none.
pub open spec fn project_name_of(namespace: Seq<char>) -> Seq<char> {
    if namespace.len() == 0 {
        "topo_app"@
    } else {
        namespace
    }
}

/// The project name a check of `app` uses.
pub fn check_project_name(app: &App) -> (r: String)
    ensures
        r@ == project_name_of(app.model().namespace@),
{
    let g = app.graph();
    let v = chars_of(g.namespace.as_str());
    if v.len() == 0 {
        owned("topo_app")
    } else {
        owned(g.namespace.as_str())
    }
}

/// The text before the project name in the generated `Topo.toml`.
pub open spec fn topo_toml_head() -> Seq<char> {
    "[project]\nname = \""@
}

/// The text after the project name in the generated `Topo.toml`.
pub open spec fn topo_toml_tail() -> Seq<char> {
    "\"\n\n[topo]\nroot = \"topo/app.topo\"\n\n[build]\nlanguage = \"rust\"\nsources = [\"src/*.rs\"]\n\n[purity]\nmode = \"force\"\n\n[completeness]\nignore_constructors = true\nignore_main = true\n"@
}

/// The `Topo.toml` of the throwaway project: a Rust build over
/// `src/*.rs` rooted at `topo/app.topo`, purity forced, constructors and
/// `main` exempt from completeness.
pub fn topo_toml_text(name: &str) -> (r: String)
    ensures
        r@ == topo_toml_head() + name@ + topo_toml_tail(),
{
    let mut m: Vec<char> = Vec::new();
    extend_str(&mut m, "[project]\nname = \"");
    extend_str(&mut m, name);
    extend_str(
        &mut m,
        "\"\n\n[topo]\nroot = \"topo/app.topo\"\n\n[build]\nlanguage = \"rust\"\nsources = [\"src/*.rs\"]\n\n[purity]\nmode = \"force\"\n\n[completeness]\nignore_constructors = true\nignore_main = true\n",
    );
    string_of(&m)
}

/// `p` occurs in `s` at position `i`.
pub open spec fn occurs_at(s: Seq<char>, p: Seq<char>, i: int) -> bool {
    0 <= i && i + p.len() <= s.len() && s.subrange(i, i + p.len()) == p
}

/// `p` occurs in `s`.
pub open spec fn contains_text(s: Seq<char>, p: Seq<char>) -> bool {
    exists|i: int| occurs_at(s, p, i)
}

fn occurs_at_chars(s: &Vec<char>, p: &Vec<char>, i: usize) -> (r: bool)
    requires
        i + p@.len() <= s@.len(),
    ensures
        r == occurs_at(s@, p@, i as int),
{
    let slen = s.len();
    let mut j: usize = 0;
    while j < p.len()
        invariant
            j <= p@.len(),
            i + p@.len() <= s@.len(),
            slen == s@.len(),
            forall|k: int| 0 <= k < j ==> s@[i + k] == p@[k],
        decreases p.len() - j,
    {
        assert(i + j < slen);
        if s[i + j] != p[j] {
            assert(s@.subrange(i as int, i + p@.len())[j as int] != p@[j as int]);
            return false;
        }
        j += 1;
    }
    assert(s@.subrange(i as int, i + p@.len()) =~= p@);
    true
}

/// Whether `p` occurs in `s`.
pub fn contains_str(s: &str, p: &str) -> (r: bool)
    ensures
        r == contains_text(s@, p@),
{
    let a = chars_of(s);
    let b = chars_of(p);
    if b.len() > a.len() {
        assert forall|i: int| !occurs_at(s@, p@, i) by {}
        return false;
    }
    let last = a.len() - b.len();
    let mut i: usize = 0;
    while i <= last
        invariant
            a@ == s@,
            b@ == p@,
            last == a@.len() - b@.len(),
            b@.len() <= a@.len(),
            forall|k: int| 0 <= k < i ==> !occurs_at(s@, p@, k),
        decreases last + 1 - i,
    {
        if occurs_at_chars(&a, &b, i) {
            return true;
        }
        if i == last {
            assert forall|k: int| !occurs_at(s@, p@, k) by {
                if 0 <= k && k + p@.len() <= s@.len() {
                    assert(k <= last);
                }
            }
            return false;
        }
        i += 1;
    }
    false
}

/// The verdict of a `topo-check` run: passed exactly when its output
/// says `Result: PASS` (the exit code alone is not the verdict), with
/// the exit code (`-1` without one) and both outputs.
pub fn check_verdict(code: Option<i32>, stdout: String, stderr: String) -> (r: CheckResult)
    ensures
        r.passed == contains_text(stdout@, "Result: PASS"@),
        r.returncode == match code {
            Some(c) => c,
            None => -1i32,
        },
        r.stdout == stdout,
        r.stderr == stderr,
{
    let passed = contains_str(stdout.as_str(), "Result: PASS");
    let returncode = match code {
        Some(c) => c,
        None => -1,
    };
    CheckResult { passed, returncode, stdout, stderr }
}

} // verus!
