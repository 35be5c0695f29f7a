//! Paths typed into a prompt: `$VAR`/`${VAR}` expansion against a table of environment
//! values, a leading `~`, and the longest common prefix that Tab completion extends to.
use vstd::prelude::*;

use crate::text::{chars_of, chars_of_string, is_ascii_alpha, is_digit, string_of, trim};

verus! {

// ---- common prefix ------------------------------------------------------------------

/// How many leading chars `a` and `b` share.
pub open spec fn shared_len(a: Seq<char>, b: Seq<char>, i: int) -> int
    decreases a.len() - i,
{
    if i < 0 || i >= a.len() || i >= b.len() || a[i] != b[i] {
        i
    } else {
        shared_len(a, b, i + 1)
    }
}

/// The longest common prefix of the first `n` names.
pub open spec fn prefix_of(names: Seq<Seq<char>>, n: int) -> Seq<char>
    decreases n,
{
    if n <= 0 {
        seq![]
    } else if n == 1 {
        names[0]
    } else {
        let p = prefix_of(names, n - 1);
        p.take(shared_len(p, names[n - 1], 0))
    }
}

proof fn lemma_shared_len(a: Seq<char>, b: Seq<char>, i: int)
    requires
        0 <= i <= a.len(),
        i <= b.len(),
    ensures
        i <= shared_len(a, b, i) <= a.len(),
        shared_len(a, b, i) <= b.len(),
    decreases a.len() - i,
{
    if i < a.len() && i < b.len() && a[i] == b[i] {
        lemma_shared_len(a, b, i + 1);
    }
}

pub(crate) fn shared_len_exec(a: &[char], b: &[char]) -> (r: usize)
    ensures
        r as int == shared_len(a@, b@, 0),
        r <= a@.len(),
{
    proof {
        lemma_shared_len(a@, b@, 0);
    }
    let mut i: usize = 0;
    while i < a.len() && i < b.len() && a[i] == b[i]
        invariant
            i <= a@.len(),
            i <= b@.len(),
            shared_len(a@, b@, 0) == shared_len(a@, b@, i as int),
        decreases a@.len() - i,
    {
        i = i + 1;
    }
    i
}

/// The longest common prefix of `names` (empty for no names).
pub fn common_prefix(names: &[String]) -> (r: String)
    ensures
        r@ == prefix_of(names@.map_values(|s: String| s@), names@.len() as int),
{
    let ghost ns = names@.map_values(|s: String| s@);
    if names.len() == 0 {
        return String::new();
    }
    let mut prefix = chars_of_string(&names[0]);
    let mut i: usize = 1;
    while i < names.len()
        invariant
            ns == names@.map_values(|s: String| s@),
            1 <= i <= names@.len(),
            prefix@ == prefix_of(ns, i as int),
        decreases names@.len() - i,
    {
        let n = chars_of_string(&names[i]);
        let k = shared_len_exec(&prefix, &n);
        prefix = crate::text::slice_vec(&prefix, 0, k);
        assert(prefix@ =~= prefix_of(ns, i + 1));
        i = i + 1;
    }
    string_of(&prefix)
}

// ---- environment variables ---------------------------------------------------------

/// The value of `name` in `env`: the first entry with that name.
pub open spec fn env_value(env: Seq<(Seq<char>, Seq<char>)>, name: Seq<char>, i: int) -> Option<Seq<char>>
    decreases env.len() - i,
{
    if i < 0 || i >= env.len() {
        None
    } else if env[i].0 == name {
        Some(env[i].1)
    } else {
        env_value(env, name, i + 1)
    }
}

/// A char that may continue a variable name: within braces anything but `}`, bare an
/// underscore or an ASCII letter or digit.
pub open spec fn name_char(c: char, braced: bool) -> bool {
    if braced {
        c != '}'
    } else {
        c == '_' || is_ascii_alpha(c) || is_digit(c)
    }
}

/// The end of the variable name starting at `i`.
pub open spec fn name_end(s: Seq<char>, i: int, braced: bool) -> int
    decreases s.len() - i,
{
    if 0 <= i < s.len() && name_char(s[i], braced) {
        name_end(s, i + 1, braced)
    } else {
        i
    }
}

/// `s` from index `i` with each `$VAR` / `${VAR}` replaced by its value in `env`; an
/// unknown or empty name, or an unclosed `${`, is put back literally.
pub open spec fn expand_from(s: Seq<char>, env: Seq<(Seq<char>, Seq<char>)>, i: int) -> Seq<char>
    decreases s.len() - i, 0int,
{
    if i < 0 || i >= s.len() {
        seq![]
    } else if s[i] != '$' {
        seq![s[i]] + expand_from(s, env, i + 1)
    } else {
        let braced = i + 1 < s.len() && s[i + 1] == '{';
        let start = if braced {
            i + 2
        } else {
            i + 1
        };
        proof {
            lemma_name_end(s, start, braced);
        }
        let end = name_end(s, start, braced);
        let name = s.subrange(start, end);
        let closed = !braced || (end < s.len() && s[end] == '}');
        let next = if braced && closed {
            end + 1
        } else {
            end
        };
        let piece = match env_value(env, name, 0) {
            Some(v) => if name.len() > 0 && closed {
                v
            } else {
                literal_ref(name, braced, closed)
            },
            None => literal_ref(name, braced, closed),
        };
        piece + expand_from(s, env, next)
    }
}

/// A reference put back as it was written.
pub open spec fn literal_ref(name: Seq<char>, braced: bool, closed: bool) -> Seq<char> {
    seq!['$'] + (if braced {
        seq!['{']
    } else {
        seq![]
    }) + name + (if braced && closed {
        seq!['}']
    } else {
        seq![]
    })
}

/// A variable name ends within the text.
pub proof fn lemma_name_end(s: Seq<char>, i: int, braced: bool)
    requires
        0 <= i,
    ensures
        i <= s.len() ==> i <= name_end(s, i, braced) <= s.len(),
        i > s.len() ==> name_end(s, i, braced) == i,
    decreases s.len() - i,
{
    if 0 <= i < s.len() && name_char(s[i], braced) {
        lemma_name_end(s, i + 1, braced);
    }
}

/// Whether the reference starting with the `$` at `i` is replaced: it names a variable of
/// `env`, the name is not empty, and a `${` is closed.
pub open spec fn resolves(s: Seq<char>, env: Seq<(Seq<char>, Seq<char>)>, i: int) -> bool {
    let braced = i + 1 < s.len() && s[i + 1] == '{';
    let start = if braced {
        i + 2
    } else {
        i + 1
    };
    let end = name_end(s, start, braced);
    let name = s.subrange(start, end);
    let closed = !braced || (end < s.len() && s[end] == '}');
    env_value(env, name, 0) is Some && name.len() > 0 && closed
}

/// Expansion drops nothing: when no reference in `s` resolves (unknown names, a stray `$`,
/// an empty or unclosed `${`), the text comes back as written.
pub proof fn lemma_unresolved_kept(s: Seq<char>, env: Seq<(Seq<char>, Seq<char>)>, i: int)
    requires
        0 <= i <= s.len(),
        forall|k: int| 0 <= k < s.len() && s[k] == '$' ==> !#[trigger] resolves(s, env, k),
    ensures
        expand_from(s, env, i) == s.skip(i),
    decreases s.len() - i,
{
    if i >= s.len() {
        assert(s.skip(i) =~= seq![]);
    } else if s[i] != '$' {
        lemma_unresolved_kept(s, env, i + 1);
        assert(seq![s[i]] + s.skip(i + 1) =~= s.skip(i));
    } else {
        assert(!resolves(s, env, i));
        let braced = i + 1 < s.len() && s[i + 1] == '{';
        let start = if braced {
            i + 2
        } else {
            i + 1
        };
        lemma_name_end(s, start, braced);
        let end = name_end(s, start, braced);
        let name = s.subrange(start, end);
        let closed = !braced || (end < s.len() && s[end] == '}');
        let next = if braced && closed {
            end + 1
        } else {
            end
        };
        lemma_unresolved_kept(s, env, next);
        assert(literal_ref(name, braced, closed) =~= s.subrange(i, next));
        assert(s.subrange(i, next) + s.skip(next) =~= s.skip(i));
    }
}

/// The table's entries as text.
pub open spec fn env_view(env: Seq<(String, String)>) -> Seq<(Seq<char>, Seq<char>)> {
    env.map_values(|e: (String, String)| (e.0@, e.1@))
}

fn env_lookup(env: &[(String, String)], name: &[char]) -> (r: Option<Vec<char>>)
    ensures
        match r {
            Some(v) => env_value(env_view(env@), name@, 0) == Some(v@),
            None => env_value(env_view(env@), name@, 0) is None,
        },
{
    let mut i: usize = 0;
    while i < env.len()
        invariant
            i <= env@.len(),
            env_value(env_view(env@), name@, 0) == env_value(env_view(env@), name@, i as int),
        decreases env@.len() - i,
    {
        let k = chars_of_string(&env[i].0);
        if crate::text::chars_eq(&k, name) {
            return Some(chars_of_string(&env[i].1));
        }
        i = i + 1;
    }
    None
}

fn name_char_exec(c: char, braced: bool) -> (r: bool)
    ensures
        r == name_char(c, braced),
{
    if braced {
        c != '}'
    } else {
        c == '_' || crate::text::ascii_alpha(c) || crate::text::digit(c)
    }
}

/// Replace `$VAR` and `${VAR}` with their values in `env` (name, value pairs; the first
/// entry of a name counts), leaving unknown variables and stray `$` untouched.
pub fn expand_env(s: &str, env: &[(String, String)]) -> (r: String)
    ensures
        r@ == expand_from(s@, env_view(env@), 0),
{
    let t = chars_of(s);
    let ghost e = env_view(env@);
    let mut out: Vec<char> = Vec::new();
    let mut i: usize = 0;
    while i < t.len()
        invariant
            t@ == s@,
            e == env_view(env@),
            i <= t@.len(),
            expand_from(t@, e, 0) == out@ + expand_from(t@, e, i as int),
        decreases t@.len() - i,
    {
        let ghost before = out@;
        let c = t[i];
        if c != '$' {
            out.push(c);
            i = i + 1;
            assert(out@ =~= before + seq![c]);
            continue;
        }
        let braced = i + 1 < t.len() && t[i + 1] == '{';
        let start = if braced {
            i + 2
        } else {
            i + 1
        };
        proof {
            lemma_name_end(t@, start as int, braced);
        }
        let mut end = start;
        while end < t.len() && name_char_exec(t[end], braced)
            invariant
                start <= end <= t@.len(),
                name_end(t@, start as int, braced) == name_end(t@, end as int, braced),
            decreases t@.len() - end,
        {
            end = end + 1;
        }
        let name = crate::text::slice_vec(&t, start, end);
        let closed = !braced || (end < t.len() && t[end] == '}');
        let next = if braced && closed {
            end + 1
        } else {
            end
        };
        let found = env_lookup(env, &name);
        let mut used = false;
        if name.len() > 0 && closed {
            if let Some(v) = found {
                crate::text::append_chars(&mut out, &v);
                used = true;
            }
        }
        if !used {
            out.push('$');
            if braced {
                out.push('{');
            }
            crate::text::append_chars(&mut out, &name);
            if braced && closed {
                out.push('}');
            }
        }
        proof {
            let piece = match env_value(e, name@, 0) {
                Some(v) => if name@.len() > 0 && closed {
                    v
                } else {
                    literal_ref(name@, braced, closed)
                },
                None => literal_ref(name@, braced, closed),
            };
            assert(out@ =~= before + piece);
        }
        i = next;
    }
    string_of(&out)
}

// ---- a typed path ---------------------------------------------------------------------

/// A prompt path after expansion: the home directory itself, a path under it, or a plain
/// path taken as written.
#[derive(Debug, Clone, PartialEq, Eq)]
pub enum ExpandedPath {
    Home,
    UnderHome(String),
    Plain(String),
}

/// How a typed path expands: trimmed, variables replaced, then a leading `~` or `~/` names
/// the home directory.
pub open spec fn path_expansion(text: Seq<char>, env: Seq<(Seq<char>, Seq<char>)>) -> (int, Seq<char>) {
    let x = expand_from(trim(text), env, 0);
    if x == seq!['~'] {
        (0, seq![])
    } else if x.len() >= 2 && x[0] == '~' && x[1] == '/' {
        (1, x.skip(2))
    } else {
        (2, x)
    }
}

/// Expand a path typed into a prompt: variables from `env`, and a leading `~`/`~/` for the
/// home directory (which the caller supplies, along with joining the rest onto it).
pub fn expand_path(text: &str, env: &[(String, String)]) -> (r: ExpandedPath)
    ensures
        match r {
            ExpandedPath::Home => path_expansion(text@, env_view(env@)).0 == 0,
            ExpandedPath::UnderHome(rest) => path_expansion(text@, env_view(env@)) == (1int, rest@),
            ExpandedPath::Plain(p) => path_expansion(text@, env_view(env@)) == (2int, p@),
        },
{
    let t = chars_of(text);
    let tt = crate::text::trim_exec(&t);
    let ts = string_of(&tt);
    let x = chars_of_string(&expand_env(ts.as_str(), env));
    if x.len() == 1 && x[0] == '~' {
        assert(x@ =~= seq!['~']);
        ExpandedPath::Home
    } else if x.len() >= 2 && x[0] == '~' && x[1] == '/' {
        let rest = crate::text::slice_vec(&x, 2, x.len());
        assert(rest@ =~= x@.skip(2));
        proof {
            if x@ == seq!['~'] {
                assert(x@.len() == 1);
            }
        }
        ExpandedPath::UnderHome(string_of(&rest))
    } else {
        proof {
            if x@ == seq!['~'] {
                assert(x@.len() == 1 && x@[0] == '~');
            }
        }
        ExpandedPath::Plain(string_of(&x))
    }
}

} // verus!
